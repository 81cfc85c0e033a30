//! What holds between building a tree, extracting a proof and verifying it.

use crate::inclusion::{
    ascending, claimed, claimed_root, covered, depth_of, lemma_count, lemma_count_none,
    lemma_count_split, lemma_depth_of_level, lemma_index, lemma_place_of, lemmas_through,
    level_lemmas, level_start, needs_lemma, picked, place_of, proof_lemmas, sibling,
};
use crate::merkle::{node, root_of, Merge};
use vstd::prelude::*;

verus! {

/// A slot lies in the level of its depth.
pub proof fn lemma_level_bounds(slot: nat)
    requires
        slot >= 1,
    ensures
        level_start(depth_of(slot)) <= slot < 2 * level_start(depth_of(slot)),
    decreases slot,
{
    if slot > 1 {
        lemma_level_bounds(slot / 2);
    }
}

/// Every level starts at a slot.
pub proof fn lemma_level_start_positive(depth: nat)
    ensures
        level_start(depth) >= 1,
    decreases depth,
{
    if depth > 0 {
        lemma_level_start_positive((depth - 1) as nat);
    }
}

/// A deeper level starts behind the end of a shallower one.
pub proof fn lemma_level_start_grows(shallow: nat, deep: nat)
    requires
        shallow < deep,
    ensures
        2 * level_start(shallow) <= level_start(deep),
    decreases deep,
{
    if deep > shallow + 1 {
        lemma_level_start_grows(shallow, (deep - 1) as nat);
    }
}

/// Slots from twice the number of leaves on add nothing to a count.
pub proof fn lemma_count_capped(n: nat, picks: Set<nat>, lo: nat, hi: nat)
    requires
        2 * n <= hi,
    ensures
        lemma_count(n, picks, lo, hi) == lemma_count(n, picks, lo, 2 * n),
{
    if lo >= 2 * n {
        lemma_count_none(n, picks, lo, hi);
    } else {
        lemma_count_split(n, picks, lo, 2 * n, hi);
        lemma_count_none(n, picks, 2 * n, hi);
    }
}

/// A range holds as many lemmas as it has slots that need one.
pub proof fn lemma_level_lemmas_len<M: Merge>(
    leaves: Seq<M::Item>,
    picks: Set<nat>,
    lo: nat,
    hi: nat,
)
    ensures
        level_lemmas::<M>(leaves, picks, lo, hi).len() == lemma_count(leaves.len(), picks, lo, hi),
    decreases hi,
{
    if hi > lo {
        lemma_level_lemmas_len::<M>(leaves, picks, lo, (hi - 1) as nat);
    }
}

/// Within a range, the lemma that `slot` needs stands behind those of the
/// lower slots, and is the value of its sibling.
pub proof fn lemma_level_lemma_at<M: Merge>(
    leaves: Seq<M::Item>,
    picks: Set<nat>,
    lo: nat,
    hi: nat,
    slot: nat,
)
    requires
        lo <= slot < hi,
        needs_lemma(leaves.len(), picks, slot),
    ensures
        lemma_count(leaves.len(), picks, lo, slot) < level_lemmas::<M>(leaves, picks, lo, hi).len(),
        level_lemmas::<M>(leaves, picks, lo, hi)[lemma_count(leaves.len(), picks, lo, slot) as int]
            == node::<M>(leaves, sibling(slot)),
    decreases hi,
{
    lemma_level_lemmas_len::<M>(leaves, picks, lo, (hi - 1) as nat);
    if slot < hi - 1 {
        lemma_level_lemma_at::<M>(leaves, picks, lo, (hi - 1) as nat, slot);
    }
}

/// The levels from `top` up to `depth` hold as many lemmas as their slots
/// need.
pub proof fn lemma_lemmas_through_len<M: Merge>(
    leaves: Seq<M::Item>,
    picks: Set<nat>,
    top: nat,
    depth: nat,
)
    requires
        depth <= top + 1,
    ensures
        lemmas_through::<M>(leaves, picks, top, depth).len() == lemma_count(
            leaves.len(),
            picks,
            level_start(depth),
            2 * level_start(top),
        ),
    decreases top + 1 - depth,
{
    if depth <= top {
        lemma_lemmas_through_len::<M>(leaves, picks, top, depth + 1);
        lemma_level_lemmas_len::<M>(leaves, picks, level_start(depth), 2 * level_start(depth));
        if depth < top {
            lemma_level_start_grows(depth, top);
        }
        lemma_count_split(
            leaves.len(),
            picks,
            level_start(depth),
            2 * level_start(depth),
            2 * level_start(top),
        );
    }
}

/// Among the lemmas of the levels from `top` up to `depth`, the one that
/// `slot` needs stands behind those of the deeper levels and of the lower
/// slots of its own level.
pub proof fn lemma_lemma_through_at<M: Merge>(
    leaves: Seq<M::Item>,
    picks: Set<nat>,
    top: nat,
    depth: nat,
    slot: nat,
)
    requires
        needs_lemma(leaves.len(), picks, slot),
        depth <= depth_of(slot) <= top,
    ensures
        ({
            let start = level_start(depth_of(slot));
            let i = lemma_count(leaves.len(), picks, 2 * start, 2 * level_start(top)) + lemma_count(
                leaves.len(),
                picks,
                start,
                slot,
            );
            &&& i < lemmas_through::<M>(leaves, picks, top, depth).len()
            &&& lemmas_through::<M>(leaves, picks, top, depth)[i as int] == node::<M>(
                leaves,
                sibling(slot),
            )
        }),
    decreases depth_of(slot) - depth,
{
    let d = depth_of(slot);
    lemma_level_bounds(slot);
    if depth == d {
        lemma_lemmas_through_len::<M>(leaves, picks, top, d + 1);
        lemma_level_lemma_at::<M>(leaves, picks, level_start(d), 2 * level_start(d), slot);
    } else {
        lemma_lemma_through_at::<M>(leaves, picks, top, depth + 1, slot);
    }
}

/// A proof holds exactly as many lemmas as the way up needs.
pub proof fn lemma_proof_lemmas_len<M: Merge>(leaves: Seq<M::Item>, picks: Set<nat>)
    requires
        leaves.len() >= 1,
    ensures
        proof_lemmas::<M>(leaves, picks).len() == lemma_count(
            leaves.len(),
            picks,
            2,
            2 * leaves.len(),
        ),
{
    let n = leaves.len();
    let top = depth_of((2 * n - 1) as nat);
    lemma_level_bounds((2 * n - 1) as nat);
    lemma_lemmas_through_len::<M>(leaves, picks, top, 1);
    assert(level_start(1) == 2) by {
        reveal_with_fuel(level_start, 2);
    }
    lemma_count_capped(n, picks, 2, 2 * level_start(top));
}

/// In a proof, the lemma that `slot` needs stands at its index and is the
/// value of the sibling of `slot`.
pub proof fn lemma_proof_lemma_at<M: Merge>(leaves: Seq<M::Item>, picks: Set<nat>, slot: nat)
    requires
        needs_lemma(leaves.len(), picks, slot),
    ensures
        lemma_index(leaves.len(), picks, slot) < proof_lemmas::<M>(leaves, picks).len(),
        proof_lemmas::<M>(leaves, picks)[lemma_index(leaves.len(), picks, slot) as int] == node::<M>(
            leaves,
            sibling(slot),
        ),
{
    let n = leaves.len();
    let top = depth_of((2 * n - 1) as nat);
    let d = depth_of(slot);
    lemma_level_bounds(slot);
    lemma_level_bounds((2 * n - 1) as nat);
    if d > top {
        lemma_level_start_grows(top, d);
    }
    lemma_lemma_through_at::<M>(leaves, picks, top, 1, slot);
    lemma_count_capped(n, picks, 2 * level_start(d), 2 * level_start(top));
}

/// With the lemmas of the proof and the values of the proven leaves, what
/// the proof claims for a slot is the value of that slot in the tree.
pub proof fn lemma_claimed_is_node<M: Merge>(
    leaves: Seq<M::Item>,
    indices: Seq<usize>,
    proven: Seq<M::Item>,
    slot: nat,
)
    requires
        ascending(indices),
        proven.len() == indices.len(),
        forall|k: int| 0 <= k < indices.len() ==> #[trigger] indices[k] < leaves.len(),
        forall|k: int| 0 <= k < indices.len() ==> #[trigger] proven[k] == leaves[indices[k] as int],
        1 <= slot < 2 * leaves.len(),
        covered(leaves.len(), picked(indices), slot) || (slot >= 2 && covered(
            leaves.len(),
            picked(indices),
            sibling(slot),
        )),
    ensures
        claimed::<M>(
            leaves.len(),
            indices,
            proven,
            proof_lemmas::<M>(leaves, picked(indices)),
            slot,
        ) == node::<M>(leaves, slot),
    decreases 2 * leaves.len() - slot,
{
    let n = leaves.len();
    let picks = picked(indices);
    if !covered(n, picks, slot) {
        lemma_proof_lemma_at::<M>(leaves, picks, sibling(slot));
        assert(sibling(sibling(slot)) == slot);
    } else if slot >= n {
        let k = place_of(indices, (slot - n) as nat);
        assert(0 <= k < indices.len() && indices[k] == slot - n);
    } else {
        assert(sibling(2 * slot) == 2 * slot + 1 && sibling(2 * slot + 1) == 2 * slot);
        lemma_claimed_is_node::<M>(leaves, indices, proven, 2 * slot);
        lemma_claimed_is_node::<M>(leaves, indices, proven, 2 * slot + 1);
    }
}

/// Whatever stands under a covered slot, the root is covered too.
pub proof fn lemma_root_covered(n: nat, picks: Set<nat>, slot: nat)
    requires
        covered(n, picks, slot),
    ensures
        covered(n, picks, 1),
    decreases slot,
{
    if slot > 1 {
        assert(covered(n, picks, slot / 2));
        lemma_root_covered(n, picks, slot / 2);
    }
}

/// Soundness of proofs: the proof built for any leaves of a tree, taken with
/// the values of those leaves, is well formed and leads to the root of that
/// tree.
pub proof fn lemma_built_proof_verifies<M: Merge>(
    leaves: Seq<M::Item>,
    requested: Seq<usize>,
    indices: Seq<usize>,
    proven: Seq<M::Item>,
)
    requires
        2 * leaves.len() <= usize::MAX,
        requested.len() > 0,
        forall|k: int| 0 <= k < requested.len() ==> requested[k] < leaves.len(),
        ascending(indices),
        picked(indices) == picked(requested),
        proven.len() == indices.len(),
        forall|k: int| 0 <= k < indices.len() ==> proven[k] == leaves[indices[k] as int],
    ensures
        claimed_root::<M>(
            leaves.len(),
            indices,
            proven,
            proof_lemmas::<M>(leaves, picked(requested)),
        ) == Some(root_of::<M>(leaves)),
{
    let n = leaves.len();
    let picks = picked(indices);
    assert(picks.contains(requested[0] as nat));
    assert forall|k: int| 0 <= k < indices.len() implies indices[k] < n by {
        assert(picked(requested).contains(indices[k] as nat));
        let j = choose|j: int| 0 <= j < requested.len() && #[trigger] requested[j] == indices[k];
    }
    let first = choose|k: int| 0 <= k < indices.len() && #[trigger] indices[k] == requested[0];
    assert(indices.len() > 0);
    lemma_proof_lemmas_len::<M>(leaves, picks);
    assert(covered(n, picks, n + requested[0] as nat));
    lemma_root_covered(n, picks, n + requested[0] as nat);
    lemma_claimed_is_node::<M>(leaves, indices, proven, 1);
}

/// No two pairs of children have the same parent. This is what a hash is
/// taken to offer, though no merge into a finite type has it: a law that
/// asks for it says that whoever breaks the law holds a collision.
pub open spec fn collision_free<M: Merge>() -> bool {
    forall|a: M::Item, b: M::Item, c: M::Item, d: M::Item|
        #[trigger] M::merged(a, b) == #[trigger] M::merged(c, d) ==> a == c && b == d
}

/// Trees of equal size with the same root hold the same value in every slot,
/// where the merge has no collisions.
pub proof fn lemma_same_root_same_nodes<M: Merge>(
    first: Seq<M::Item>,
    second: Seq<M::Item>,
    slot: nat,
)
    requires
        collision_free::<M>(),
        first.len() == second.len(),
        root_of::<M>(first) == root_of::<M>(second),
        1 <= slot < 2 * first.len(),
    ensures
        node::<M>(first, slot) == node::<M>(second, slot),
    decreases slot,
{
    if slot > 1 {
        let parent = slot / 2;
        lemma_same_root_same_nodes::<M>(first, second, parent);
        assert(node::<M>(first, parent) == M::merged(
            node::<M>(first, 2 * parent),
            node::<M>(first, 2 * parent + 1),
        ));
        assert(node::<M>(second, parent) == M::merged(
            node::<M>(second, 2 * parent),
            node::<M>(second, 2 * parent + 1),
        ));
    }
}

/// Sensitivity to order and content: where the merge has no collisions, two
/// different sequences of the same number of leaves have different roots. So
/// a permutation of the leaves that changes their sequence changes the root,
/// or else the two trees show a collision of the merge.
pub proof fn lemma_distinct_leaves_distinct_roots<M: Merge>(
    first: Seq<M::Item>,
    second: Seq<M::Item>,
)
    requires
        collision_free::<M>(),
        first.len() == second.len(),
        first != second,
    ensures
        root_of::<M>(first) != root_of::<M>(second),
{
    if root_of::<M>(first) == root_of::<M>(second) {
        assert forall|i: int| 0 <= i < first.len() implies first[i] == second[i] by {
            lemma_same_root_same_nodes::<M>(first, second, (first.len() + i) as nat);
        }
        assert(first =~= second);
    }
}

/// The root of three leaves: the first leaf stands one level below the
/// root, beside the parent of the other two.
pub proof fn lemma_three_leaf_root<M: Merge>(h0: M::Item, h1: M::Item, h2: M::Item)
    ensures
        root_of::<M>(seq![h0, h1, h2]) == M::merged(M::merged(h1, h2), h0),
{
    reveal_with_fuel(node, 3);
}

/// The root of four leaves: the parent of the first two beside the parent of
/// the last two.
pub proof fn lemma_four_leaf_root<M: Merge>(h0: M::Item, h1: M::Item, h2: M::Item, h3: M::Item)
    ensures
        root_of::<M>(seq![h0, h1, h2, h3]) == M::merged(M::merged(h0, h1), M::merged(h2, h3)),
{
    reveal_with_fuel(node, 3);
}

/// Where two proofs of the same form claim different values for a slot on
/// the way up, they claim different roots, if the merge has no collisions.
pub proof fn lemma_difference_rises<M: Merge>(
    n: nat,
    indices: Seq<usize>,
    proven: Seq<M::Item>,
    lemmas: Seq<M::Item>,
    other_proven: Seq<M::Item>,
    other_lemmas: Seq<M::Item>,
    slot: nat,
)
    requires
        collision_free::<M>(),
        1 <= slot < 2 * n,
        covered(n, picked(indices), slot) || (slot >= 2 && covered(
            n,
            picked(indices),
            sibling(slot),
        )),
        claimed::<M>(n, indices, proven, lemmas, slot) != claimed::<M>(
            n,
            indices,
            other_proven,
            other_lemmas,
            slot,
        ),
    ensures
        claimed::<M>(n, indices, proven, lemmas, 1) != claimed::<M>(
            n,
            indices,
            other_proven,
            other_lemmas,
            1,
        ),
    decreases slot,
{
    if slot > 1 {
        let parent = slot / 2;
        assert(covered(n, picked(indices), parent));
        assert(claimed::<M>(n, indices, proven, lemmas, parent) == M::merged(
            claimed::<M>(n, indices, proven, lemmas, 2 * parent),
            claimed::<M>(n, indices, proven, lemmas, 2 * parent + 1),
        ));
        assert(claimed::<M>(n, indices, other_proven, other_lemmas, parent) == M::merged(
            claimed::<M>(n, indices, other_proven, other_lemmas, 2 * parent),
            claimed::<M>(n, indices, other_proven, other_lemmas, 2 * parent + 1),
        ));
        lemma_difference_rises::<M>(
            n,
            indices,
            proven,
            lemmas,
            other_proven,
            other_lemmas,
            parent,
        );
    }
}

/// The slot of a range that needs the lemma numbered `j` within that range.
pub proof fn lemma_slot_of_count(n: nat, picks: Set<nat>, lo: nat, hi: nat, j: nat) -> (slot: nat)
    requires
        j < lemma_count(n, picks, lo, hi),
    ensures
        lo <= slot < hi,
        needs_lemma(n, picks, slot),
        lemma_count(n, picks, lo, slot) == j,
    decreases hi,
{
    if j < lemma_count(n, picks, lo, (hi - 1) as nat) {
        lemma_slot_of_count(n, picks, lo, (hi - 1) as nat, j)
    } else {
        (hi - 1) as nat
    }
}

/// The slot at or above `depth` that needs the lemma at index `j`.
pub proof fn lemma_slot_of_index_from(n: nat, picks: Set<nat>, depth: nat, j: nat) -> (slot: nat)
    requires
        j < lemma_count(n, picks, level_start(depth), 2 * n),
    ensures
        needs_lemma(n, picks, slot),
        lemma_index(n, picks, slot) == j,
    decreases 2 * n - level_start(depth),
{
    let start = level_start(depth);
    lemma_level_start_positive(depth);
    if j < lemma_count(n, picks, 2 * start, 2 * n) {
        assert(2 * start < 2 * n);
        lemma_slot_of_index_from(n, picks, depth + 1, j)
    } else {
        let end = if 2 * start <= 2 * n {
            2 * start
        } else {
            2 * n
        };
        if 2 * start <= 2 * n {
            lemma_count_split(n, picks, start, 2 * start, 2 * n);
        }
        let within = (j - lemma_count(n, picks, 2 * start, 2 * n)) as nat;
        let slot = lemma_slot_of_count(n, picks, start, end, within);
        lemma_depth_of_level(slot, depth);
        slot
    }
}

/// Every lemma of a well-formed proof is the one that some slot needs.
pub proof fn lemma_slot_of_index(n: nat, picks: Set<nat>, j: nat) -> (slot: nat)
    requires
        j < lemma_count(n, picks, 2, 2 * n),
    ensures
        needs_lemma(n, picks, slot),
        lemma_index(n, picks, slot) == j,
{
    assert(level_start(1) == 2) by {
        reveal_with_fuel(level_start, 2);
    }
    lemma_slot_of_index_from(n, picks, 1, j)
}

/// Tampering with a lemma: where the merge has no collisions, a proof that
/// leads to a root no longer leads to it once one of its lemmas is replaced
/// by another value.
pub proof fn lemma_changed_lemma_changes_root<M: Merge>(
    n: nat,
    indices: Seq<usize>,
    proven: Seq<M::Item>,
    lemmas: Seq<M::Item>,
    root: M::Item,
    k: int,
    forged: M::Item,
)
    requires
        collision_free::<M>(),
        claimed_root::<M>(n, indices, proven, lemmas) == Some(root),
        0 <= k < lemmas.len(),
        forged != lemmas[k],
    ensures
        claimed_root::<M>(n, indices, proven, lemmas.update(k, forged)) != Some(root),
{
    let picks = picked(indices);
    let slot = lemma_slot_of_index(n, picks, k as nat);
    let beside = sibling(slot);
    assert(sibling(beside) == slot);
    lemma_difference_rises::<M>(
        n,
        indices,
        proven,
        lemmas,
        proven,
        lemmas.update(k, forged),
        beside,
    );
}

/// Tampering with a leaf: where the merge has no collisions, a proof that
/// leads to a root no longer leads to it once the value of one of the leaves
/// it proves is replaced by another.
pub proof fn lemma_changed_leaf_changes_root<M: Merge>(
    n: nat,
    indices: Seq<usize>,
    proven: Seq<M::Item>,
    lemmas: Seq<M::Item>,
    root: M::Item,
    k: int,
    forged: M::Item,
)
    requires
        collision_free::<M>(),
        claimed_root::<M>(n, indices, proven, lemmas) == Some(root),
        0 <= k < proven.len(),
        forged != proven[k],
    ensures
        claimed_root::<M>(n, indices, proven.update(k, forged), lemmas) != Some(root),
{
    let picks = picked(indices);
    let slot = (n + indices[k]) as nat;
    lemma_place_of(indices, k);
    assert(picks.contains(indices[k] as nat));
    lemma_difference_rises::<M>(
        n,
        indices,
        proven,
        lemmas,
        proven.update(k, forged),
        lemmas,
        slot,
    );
}

} // verus!
