//! Complete binary Merkle tree over an ordered sequence of leaves.
//!
//! A tree over `n` leaves is laid out as `2n` slots. Slot 0 is unused, the
//! leaves stand in slots `n..2n` in their given order, and every slot `i` in
//! `1..n` holds the merge of slots `2i` and `2i + 1`. Slot 1 is the root.
//!
//! Among `2n` slots every slot below `n` has both its children, so no value
//! is ever merged with a copy of itself. Where the number of leaves is no
//! power of two, the first leaves stand one level above the others: they are
//! carried up unmerged, to meet the parents of their neighbours there.

use crate::inclusion::{
    ascending, covered, lemma_depth_of_level, lemma_level_lemmas_end, lemma_picked_step,
    lemmas_through, level_lemmas, level_start, picked, proof_lemmas, sibling,
    MerkleProof,
};
use vstd::prelude::*;

verus! {

/// The capability that derives a parent from its two children.
pub trait Merge {
    /// The type of every node of the tree.
    type Item: Copy;

    /// The parent of `left` and `right`, as a function of the two.
    spec fn merged(left: Self::Item, right: Self::Item) -> Self::Item;

    /// The root of a tree without leaves.
    spec fn blank() -> Self::Item;

    /// Computes the parent of `left` and `right`.
    fn merge(left: &Self::Item, right: &Self::Item) -> (parent: Self::Item)
        ensures
            parent == Self::merged(*left, *right),
    ;

    /// Returns the root of a tree without leaves.
    fn blank_root() -> (root: Self::Item)
        ensures
            root == Self::blank(),
    ;

    /// Tells whether two values are the same.
    fn same(left: &Self::Item, right: &Self::Item) -> (equal: bool)
        ensures
            equal == (*left == *right),
    ;
}

/// The value of slot `slot` in the tree over `leaves`. Slots outside
/// `1..2n` hold the blank value.
pub open spec fn node<M: Merge>(leaves: Seq<M::Item>, slot: nat) -> M::Item
    decreases 2 * leaves.len() - slot,
{
    if slot == 0 || slot >= 2 * leaves.len() {
        M::blank()
    } else if slot >= leaves.len() {
        leaves[slot - leaves.len()]
    } else {
        M::merged(node::<M>(leaves, 2 * slot), node::<M>(leaves, 2 * slot + 1))
    }
}

/// The root of the tree over `leaves`: slot 1, or the blank value when there
/// are no leaves.
pub open spec fn root_of<M: Merge>(leaves: Seq<M::Item>) -> M::Item {
    node::<M>(leaves, 1)
}

/// All slots of a tree, kept for the extraction of proofs.
pub struct Tree<M: Merge> {
    nodes: Vec<M::Item>,
}

impl<M: Merge> Tree<M> {
    /// The slots of the tree, slot 0 first.
    pub closed spec fn view(&self) -> Seq<M::Item> {
        self.nodes@
    }

    /// The leaves the tree was built over.
    pub open spec fn leaves(&self) -> Seq<M::Item> {
        self@.subrange(self@.len() as int / 2, self@.len() as int)
    }

    /// Every slot holds the value that the leaves determine.
    #[verifier::type_invariant]
    spec fn wf(&self) -> bool {
        &&& self.nodes@.len() % 2 == 0
        &&& forall|slot: nat|
            slot < self.nodes@.len() ==> self.nodes@[slot as int] == node::<M>(
                self.leaves(),
                slot,
            )
    }

    /// The number of leaves.
    pub fn leaf_count(&self) -> (n: usize)
        ensures
            n == self.leaves().len(),
    {
        proof {
            use_type_invariant(self);
        }
        self.nodes.len() / 2
    }

    /// The root of the tree.
    pub fn root(&self) -> (root: M::Item)
        ensures
            root == root_of::<M>(self.leaves()),
    {
        proof {
            use_type_invariant(self);
        }
        if self.nodes.len() < 2 {
            M::blank_root()
        } else {
            self.nodes[1]
        }
    }

    /// Extracts the proof for the leaves at `indices`, which may come in any
    /// order and with repeats. There is no proof for no leaves, nor for a
    /// position beyond the last leaf.
    pub fn build_proof(&self, indices: &[usize]) -> (witness: Option<MerkleProof<M>>)
        ensures
            witness is Some <==> (indices@.len() > 0 && forall|k: int|
                0 <= k < indices@.len() ==> indices@[k] < self.leaves().len()),
            witness matches Some(p) ==> ascending(p.indices@),
            witness matches Some(p) ==> picked(p.indices@) == picked(indices@),
            witness matches Some(p) ==> p.lemmas@ == proof_lemmas::<M>(
                self.leaves(),
                picked(indices@),
            ),
    {
        proof {
            use_type_invariant(self);
        }
        let total = self.nodes.len();
        let n = total / 2;
        let ghost leaves = self.leaves();
        let ghost picks = picked(indices@);
        if indices.len() == 0 {
            return None;
        }
        let mut known: Vec<bool> = Vec::new();
        let mut t: usize = 0;
        while t < 2 * n
            invariant
                2 * n == total,
                total == self.nodes@.len(),
                t <= 2 * n,
                known@.len() == t,
                forall|j: int| 0 <= j < t ==> !known@[j],
            decreases 2 * n - t,
        {
            known.push(false);
            t += 1;
        }
        let mut k: usize = 0;
        while k < indices.len()
            invariant
                2 * n == total,
                total == self.nodes@.len(),
                k <= indices@.len(),
                known@.len() == 2 * n,
                forall|j: int| 0 <= j < k ==> indices@[j] < n,
                forall|j: int| 0 <= j < n ==> !known@[j],
                forall|j: int|
                    n <= j < 2 * n ==> known@[j] == picked(indices@.take(k as int)).contains(
                        (j - n) as nat,
                    ),
            decreases indices@.len() - k,
        {
            let index = indices[k];
            if index >= n {
                return None;
            }
            proof {
                lemma_picked_step(indices@, k as int);
            }
            known.set(n + index, true);
            k += 1;
        }
        assert(indices@.take(k as int) =~= indices@);
        let mut sorted: Vec<usize> = Vec::new();
        let mut i: usize = 0;
        while i < n
            invariant
                2 * n == total,
                total == self.nodes@.len(),
                i <= n,
                known@.len() == 2 * n,
                forall|j: int| n <= j < 2 * n ==> known@[j] == picks.contains((j - n) as nat),
                ascending(sorted@),
                forall|j: int| 0 <= j < sorted@.len() ==> sorted@[j] < i && picks.contains(sorted@[j] as nat),
                forall|e: nat| e < i && picks.contains(e) ==> picked(sorted@).contains(e),
            decreases n - i,
        {
            if known[n + i] {
                let ghost before = sorted@;
                sorted.push(i);
                assert(sorted@[before.len() as int] == i);
                assert forall|e: nat| e < i + 1 && picks.contains(e) implies picked(
                    sorted@,
                ).contains(e) by {
                    if e < i {
                        let j = choose|j: int| 0 <= j < before.len() && #[trigger] before[j] == e;
                        assert(sorted@[j] == e);
                    }
                }
            }
            i += 1;
        }
        assert(picked(sorted@) =~= picks) by {
            assert forall|e: nat| picks.contains(e) implies e < n by {
                let j = choose|j: int| 0 <= j < indices@.len() && #[trigger] indices@[j] == e;
            }
        }
        assert(indices@[0] < n);
        assert forall|slot: nat| n <= slot < 2 * n implies known@[slot as int] == covered(
            n as nat,
            picks,
            slot,
        ) by {}
        let mut lemmas: Vec<M::Item> = Vec::new();
        let mut start: usize = 1;
        let ghost mut depth: nat = 0;
        while start < n
            invariant
                2 * n == total,
                total == self.nodes@.len(),
                n >= 1,
                start == level_start(depth),
                start >= 1,
                start <= 2 * n - 1,
            decreases 2 * n - start,
        {
            start = 2 * start;
            proof {
                depth = depth + 1;
            }
        }
        let ghost top = depth;
        proof {
            lemma_depth_of_level((2 * n - 1) as nat, depth);
        }
        while start >= 2
            invariant
                2 * n == total,
                total == self.nodes@.len(),
                leaves == self.leaves(),
                leaves.len() == n,
                forall|slot: nat|
                    slot < self.nodes@.len() ==> self.nodes@[slot as int] == node::<M>(leaves, slot),
                start == level_start(depth),
                1 <= start <= 2 * n - 1,
                depth <= top,
                known@.len() == 2 * n,
                forall|slot: nat|
                    start <= slot < 2 * n ==> known@[slot as int] == covered(n as nat, picks, slot),
                forall|slot: nat|
                    n <= slot < 2 * n ==> known@[slot as int] == covered(n as nat, picks, slot),
                forall|slot: nat| slot < start && slot < n ==> !known@[slot as int],
                lemmas@ == lemmas_through::<M>(leaves, picks, top, depth + 1),
            decreases start,
        {
            let end = if start >= n {
                2 * n
            } else {
                2 * start
            };
            let mut slot = start;
            while slot < end
                invariant
                    2 * n == total,
                    total == self.nodes@.len(),
                    leaves.len() == n,
                    forall|s: nat|
                        s < self.nodes@.len() ==> self.nodes@[s as int] == node::<M>(leaves, s),
                    2 <= start <= slot <= end,
                    end <= 2 * n,
                    end <= 2 * start,
                    start % 2 == 0,
                    known@.len() == 2 * n,
                    forall|s: nat|
                        start <= s < 2 * n ==> known@[s as int] == covered(n as nat, picks, s),
                    forall|s: nat|
                        start / 2 <= s < start && s < n ==> known@[s as int] == ((2 * s < slot
                            && covered(n as nat, picks, 2 * s)) || (2 * s + 1 < slot && covered(
                            n as nat,
                            picks,
                            2 * s + 1,
                        ))),
                    forall|s: nat|
                        n <= s < 2 * n ==> known@[s as int] == covered(n as nat, picks, s),
                    forall|s: nat| s < start / 2 && s < n ==> !known@[s as int],
                    lemmas@ == lemmas_through::<M>(leaves, picks, top, depth + 1) + level_lemmas::<
                        M,
                    >(leaves, picks, start as nat, slot as nat),
                decreases end - slot,
            {
                if known[slot] {
                    let other = if slot % 2 == 0 {
                        slot + 1
                    } else {
                        slot - 1
                    };
                    assert(other == sibling(slot as nat));
                    if !known[other] {
                        lemmas.push(self.nodes[other]);
                    }
                    known.set(slot / 2, true);
                }
                slot += 1;
            }
            proof {
                assert forall|s: nat| start / 2 <= s < 2 * n implies known@[s as int] == covered(
                    n as nat,
                    picks,
                    s,
                ) by {}
                if end < 2 * start {
                    lemma_level_lemmas_end::<M>(leaves, picks, start as nat, 2 * start as nat);
                }
                depth = (depth - 1) as nat;
            }
            start = start / 2;
        }
        Some(MerkleProof { indices: sorted, lemmas })
    }
}

/// Builds the tree over `leaves`.
pub fn build_tree<M: Merge>(leaves: &[M::Item]) -> (tree: Tree<M>)
    requires
        2 * leaves.len() <= usize::MAX,
    ensures
        tree.leaves() == leaves@,
        tree@.len() == 2 * leaves.len(),
        forall|slot: nat| slot < tree@.len() ==> tree@[slot as int] == node::<M>(leaves@, slot),
{
    let n = leaves.len();
    let mut nodes: Vec<M::Item> = Vec::new();
    let mut k: usize = 0;
    while k < n
        invariant
            k <= n,
            nodes@.len() == k,
        decreases n - k,
    {
        nodes.push(M::blank_root());
        k += 1;
    }
    k = 0;
    while k < n
        invariant
            k <= n,
            n == leaves.len(),
            nodes@.len() == n + k,
            forall|j: int| 0 <= j < k ==> nodes@[n + j] == leaves@[j],
        decreases n - k,
    {
        nodes.push(leaves[k]);
        k += 1;
    }
    assert(nodes@.subrange(n as int, 2 * n) =~= leaves@);
    let mut i: usize = n;
    while i > 1
        invariant
            i <= n,
            n == leaves.len(),
            2 * n <= usize::MAX,
            nodes@.len() == 2 * n,
            nodes@.subrange(n as int, 2 * n) == leaves@,
            forall|slot: nat| i <= slot < 2 * n ==> nodes@[slot as int] == node::<M>(leaves@, slot),
        decreases i,
    {
        i -= 1;
        let parent = M::merge(&nodes[2 * i], &nodes[2 * i + 1]);
        nodes.set(i, parent);
        assert(nodes@.subrange(n as int, 2 * n) =~= leaves@);
    }
    if n > 0 {
        nodes.set(0, M::blank_root());
        assert(nodes@.subrange(n as int, 2 * n) =~= leaves@);
    }
    Tree { nodes }
}

/// Builds the proof that the leaves at `indices` belong to the tree over
/// `leaves`.
pub fn build_proof<M: Merge>(leaves: &[M::Item], indices: &[usize]) -> (witness: Option<
    MerkleProof<M>,
>)
    requires
        2 * leaves.len() <= usize::MAX,
    ensures
        witness is Some <==> (indices@.len() > 0 && forall|k: int|
            0 <= k < indices@.len() ==> indices@[k] < leaves@.len()),
        witness matches Some(p) ==> ascending(p.indices@),
        witness matches Some(p) ==> picked(p.indices@) == picked(indices@),
        witness matches Some(p) ==> p.lemmas@ == proof_lemmas::<M>(leaves@, picked(indices@)),
{
    let tree = build_tree::<M>(leaves);
    tree.build_proof(indices)
}

/// Computes the root of the tree over `leaves`. The root is a function of
/// the leaves and their order alone: the blank value where there are none,
/// and the leaf itself where there is one.
pub fn build_root<M: Merge>(leaves: &[M::Item]) -> (root: M::Item)
    requires
        2 * leaves.len() <= usize::MAX,
    ensures
        root == root_of::<M>(leaves@),
        leaves.len() == 0 ==> root == M::blank(),
        leaves.len() == 1 ==> root == leaves[0],
{
    let tree = build_tree::<M>(leaves);
    tree.root()
}

} // verus!
