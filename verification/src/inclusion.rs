//! Inclusion proofs for the complete binary Merkle tree.
//!
//! A proof names the leaves it proves by their positions and carries the
//! lemmas: the values of the slots that the proven leaves do not determine
//! and that the way up to the root needs. The lemmas stand in the order in
//! which the way up meets them: level by level from the deepest, and within
//! a level by ascending slot.

use crate::merkle::{node, Merge};
use vstd::prelude::*;

verus! {

/// A proof that some leaves belong to a tree.
pub struct MerkleProof<M: Merge> {
    /// The positions of the proven leaves, ascending and without repeats.
    pub indices: Vec<usize>,
    /// The values of the siblings that the proven leaves do not determine.
    pub lemmas: Vec<M::Item>,
}

/// The set of positions that occur in `indices`.
pub open spec fn picked(indices: Seq<usize>) -> Set<nat> {
    Set::new(|i: nat| exists|k: int| 0 <= k < indices.len() && #[trigger] indices[k] == i)
}

/// Each position is greater than the one before it.
pub open spec fn ascending(indices: Seq<usize>) -> bool {
    forall|j: int, k: int| 0 <= j < k < indices.len() ==> indices[j] < indices[k]
}

/// The other child of the parent of `slot`.
pub open spec fn sibling(slot: nat) -> nat {
    if slot % 2 == 0 {
        slot + 1
    } else {
        (slot - 1) as nat
    }
}

/// Whether one of the leaves `picks` stands under `slot` in a tree of `n`
/// leaves.
pub open spec fn covered(n: nat, picks: Set<nat>, slot: nat) -> bool
    decreases 2 * n - slot,
{
    if slot == 0 || slot >= 2 * n {
        false
    } else if slot >= n {
        picks.contains((slot - n) as nat)
    } else {
        covered(n, picks, 2 * slot) || covered(n, picks, 2 * slot + 1)
    }
}

/// Whether the way up from `slot` needs the value of its sibling from
/// outside: `slot` is covered and its sibling is not.
pub open spec fn needs_lemma(n: nat, picks: Set<nat>, slot: nat) -> bool {
    slot >= 2 && covered(n, picks, slot) && !covered(n, picks, sibling(slot))
}

/// The number of slots in `lo..hi` that need a lemma.
pub open spec fn lemma_count(n: nat, picks: Set<nat>, lo: nat, hi: nat) -> nat
    decreases hi,
{
    if hi <= lo {
        0
    } else {
        lemma_count(n, picks, lo, (hi - 1) as nat) + if needs_lemma(n, picks, (hi - 1) as nat) {
            1nat
        } else {
            0nat
        }
    }
}

/// The first slot of the level at `depth`: two to the power `depth`.
pub open spec fn level_start(depth: nat) -> nat
    decreases depth,
{
    if depth == 0 {
        1
    } else {
        2 * level_start((depth - 1) as nat)
    }
}

/// The depth of `slot` below the root, which is slot 1 at depth 0.
pub open spec fn depth_of(slot: nat) -> nat
    decreases slot,
{
    if slot <= 1 {
        0
    } else {
        1 + depth_of(slot / 2)
    }
}

/// The place in the lemma sequence of the lemma that `slot` needs: behind
/// the lemmas of all deeper levels and of the lower slots of its own level.
pub open spec fn lemma_index(n: nat, picks: Set<nat>, slot: nat) -> nat {
    let start = level_start(depth_of(slot));
    lemma_count(n, picks, 2 * start, 2 * n) + lemma_count(n, picks, start, slot)
}

/// The lemmas that the slots `lo..hi` need, by ascending slot.
pub open spec fn level_lemmas<M: Merge>(
    leaves: Seq<M::Item>,
    picks: Set<nat>,
    lo: nat,
    hi: nat,
) -> Seq<M::Item>
    decreases hi,
{
    if hi <= lo {
        Seq::empty()
    } else {
        let below = level_lemmas::<M>(leaves, picks, lo, (hi - 1) as nat);
        if needs_lemma(leaves.len(), picks, (hi - 1) as nat) {
            below.push(node::<M>(leaves, sibling((hi - 1) as nat)))
        } else {
            below
        }
    }
}

/// The lemmas of the levels from `top` up to `depth`, the deepest first.
pub open spec fn lemmas_through<M: Merge>(
    leaves: Seq<M::Item>,
    picks: Set<nat>,
    top: nat,
    depth: nat,
) -> Seq<M::Item>
    decreases top + 1 - depth,
{
    if depth > top {
        Seq::empty()
    } else {
        lemmas_through::<M>(leaves, picks, top, depth + 1) + level_lemmas::<M>(
            leaves,
            picks,
            level_start(depth),
            2 * level_start(depth),
        )
    }
}

/// The lemmas of the proof for the leaves `picks` of the tree over `leaves`.
pub open spec fn proof_lemmas<M: Merge>(leaves: Seq<M::Item>, picks: Set<nat>) -> Seq<M::Item> {
    if leaves.len() == 0 {
        Seq::empty()
    } else {
        lemmas_through::<M>(leaves, picks, depth_of((2 * leaves.len() - 1) as nat), 1)
    }
}

/// The place at which position `i` stands in `indices`.
pub open spec fn place_of(indices: Seq<usize>, i: nat) -> int {
    choose|k: int| 0 <= k < indices.len() && #[trigger] indices[k] == i
}

/// The value that a proof claims for `slot` in a tree of `n` leaves: for a
/// proven leaf its given value, for a slot above proven leaves the merge of
/// what the proof claims for its children, and for any other slot the lemma
/// that its sibling needs.
pub open spec fn claimed<M: Merge>(
    n: nat,
    indices: Seq<usize>,
    proven: Seq<M::Item>,
    lemmas: Seq<M::Item>,
    slot: nat,
) -> M::Item
    decreases 2 * n - slot,
{
    if slot == 0 || slot >= 2 * n {
        M::blank()
    } else if !covered(n, picked(indices), slot) {
        lemmas[lemma_index(n, picked(indices), sibling(slot)) as int]
    } else if slot >= n {
        proven[place_of(indices, (slot - n) as nat)]
    } else {
        M::merged(
            claimed::<M>(n, indices, proven, lemmas, 2 * slot),
            claimed::<M>(n, indices, proven, lemmas, 2 * slot + 1),
        )
    }
}

/// Whether a proof has the form that a tree of `n` leaves asks for: the
/// slots of the tree can be numbered on this machine, the proof names at
/// least one leaf, its positions ascend and lie in the tree, it comes with
/// one value for each, and it holds exactly the lemmas that the way up needs.
pub open spec fn well_formed(n: nat, indices: Seq<usize>, proven: nat, lemmas: nat) -> bool {
    &&& 2 * n <= usize::MAX
    &&& 0 < indices.len()
    &&& indices.len() == proven
    &&& ascending(indices)
    &&& forall|k: int| 0 <= k < indices.len() ==> indices[k] < n
    &&& lemmas == lemma_count(n, picked(indices), 2, 2 * n)
}

/// The root that a proof claims for a tree of `n` leaves, given the values of
/// the leaves it proves; none where the proof is not well formed.
pub open spec fn claimed_root<M: Merge>(
    n: nat,
    indices: Seq<usize>,
    proven: Seq<M::Item>,
    lemmas: Seq<M::Item>,
) -> Option<M::Item> {
    if well_formed(n, indices, proven.len(), lemmas.len()) {
        Some(claimed::<M>(n, indices, proven, lemmas, 1))
    } else {
        None
    }
}

/// What holds of the slots that the way up has reached within `lo..hi`: they
/// ascend, they are exactly the covered slots of that range, and each comes
/// with the value that the proof claims for it.
pub open spec fn front_holds<M: Merge>(
    n: nat,
    indices: Seq<usize>,
    proven: Seq<M::Item>,
    lemmas: Seq<M::Item>,
    slots: Seq<usize>,
    values: Seq<M::Item>,
    lo: nat,
    hi: nat,
) -> bool {
    &&& slots.len() == values.len()
    &&& ascending(slots)
    &&& forall|a: int|
        0 <= a < slots.len() ==> {
            &&& lo <= #[trigger] slots[a] < hi
            &&& covered(n, picked(indices), slots[a] as nat)
            &&& values[a] == claimed::<M>(n, indices, proven, lemmas, slots[a] as nat)
        }
    &&& forall|s: nat|
        lo <= s < hi && #[trigger] covered(n, picked(indices), s) ==> picked(slots).contains(s)
}

/// The first slot of the row that the way up stands on when the level that
/// begins at `start` is next: that level, or at the deepest level the row of
/// all leaves.
pub open spec fn row_start(start: nat, n: nat) -> nat {
    if start < n {
        start
    } else {
        n
    }
}

/// The slot at which the walk over `slots` stands at `i`, or `hi` behind the
/// last.
pub open spec fn bound_at(slots: Seq<usize>, i: int, hi: nat) -> nat {
    if i < slots.len() {
        slots[i] as nat
    } else {
        hi
    }
}

/// Adding a position to a sequence adds it to the set of its positions.
pub proof fn lemma_picked_step(indices: Seq<usize>, k: int)
    requires
        0 <= k < indices.len(),
    ensures
        picked(indices.take(k + 1)) == picked(indices.take(k)).insert(indices[k] as nat),
{
    let more = indices.take(k + 1);
    let less = indices.take(k);
    assert forall|x: nat| picked(more).contains(x) <==> picked(less).insert(
        indices[k] as nat,
    ).contains(x) by {
        if picked(more).contains(x) {
            let j = choose|j: int| 0 <= j < more.len() && #[trigger] more[j] == x;
            if j < k {
                assert(less[j] == x);
            }
        }
        if picked(less).contains(x) {
            let j = choose|j: int| 0 <= j < less.len() && #[trigger] less[j] == x;
            assert(more[j] == x);
        }
        if x == indices[k] {
            assert(more[k] == x);
        }
    }
    assert(picked(more) =~= picked(less).insert(indices[k] as nat));
}

/// A slot at or beyond the start of a level and before the start of the
/// next has the depth of that level.
pub proof fn lemma_depth_of_level(slot: nat, depth: nat)
    requires
        level_start(depth) <= slot < 2 * level_start(depth),
    ensures
        depth_of(slot) == depth,
    decreases depth,
{
    if depth > 0 {
        lemma_depth_of_level(slot / 2, (depth - 1) as nat);
    }
}

/// Slots from twice the number of leaves on need no lemma.
pub proof fn lemma_level_lemmas_end<M: Merge>(
    leaves: Seq<M::Item>,
    picks: Set<nat>,
    lo: nat,
    hi: nat,
)
    requires
        2 * leaves.len() <= hi,
        lo <= 2 * leaves.len(),
    ensures
        level_lemmas::<M>(leaves, picks, lo, hi) == level_lemmas::<M>(
            leaves,
            picks,
            lo,
            2 * leaves.len(),
        ),
    decreases hi,
{
    if hi > 2 * leaves.len() {
        lemma_level_lemmas_end::<M>(leaves, picks, lo, (hi - 1) as nat);
    }
}

/// Appending a position adds it to the set of positions.
pub proof fn lemma_picked_push(indices: Seq<usize>, x: usize)
    ensures
        picked(indices.push(x)) == picked(indices).insert(x as nat),
{
    let more = indices.push(x);
    assert(more.take(indices.len() as int) =~= indices);
    assert(more.take(more.len() as int) =~= more);
    lemma_picked_step(more, indices.len() as int);
}

/// The count over a range is the sum of the counts over its two parts.
pub proof fn lemma_count_split(n: nat, picks: Set<nat>, lo: nat, mid: nat, hi: nat)
    requires
        lo <= mid <= hi,
    ensures
        lemma_count(n, picks, lo, hi) == lemma_count(n, picks, lo, mid) + lemma_count(
            n,
            picks,
            mid,
            hi,
        ),
    decreases hi,
{
    if hi > mid {
        lemma_count_split(n, picks, lo, mid, (hi - 1) as nat);
    }
}

/// A range without covered slots needs no lemma.
pub proof fn lemma_count_none(n: nat, picks: Set<nat>, lo: nat, hi: nat)
    requires
        forall|t: nat| lo <= t < hi ==> !covered(n, picks, t),
    ensures
        lemma_count(n, picks, lo, hi) == 0,
    decreases hi,
{
    if hi > lo {
        lemma_count_none(n, picks, lo, (hi - 1) as nat);
    }
}

/// The count over a single slot.
pub proof fn lemma_count_one(n: nat, picks: Set<nat>, slot: nat)
    ensures
        lemma_count(n, picks, slot, slot + 1) == if needs_lemma(n, picks, slot) {
            1nat
        } else {
            0nat
        },
{
    reveal_with_fuel(lemma_count, 2);
}

/// No slot strictly between two neighbours of an ascending, complete front
/// is covered.
pub proof fn lemma_front_gap(
    n: nat,
    picks: Set<nat>,
    slots: Seq<usize>,
    lo: nat,
    hi: nat,
    i: int,
    t: nat,
)
    requires
        ascending(slots),
        forall|s: nat| lo <= s < hi && #[trigger] covered(n, picks, s) ==> picked(slots).contains(s),
        0 <= i <= slots.len(),
        lo <= t < hi,
        i > 0 ==> slots[i - 1] < t,
        i < slots.len() ==> t < slots[i],
    ensures
        !covered(n, picks, t),
{
    if covered(n, picks, t) {
        let a = choose|a: int| 0 <= a < slots.len() && #[trigger] slots[a] == t;
        if a < i {
            assert(a == i - 1 || slots[a] < slots[i - 1]);
        } else {
            assert(a == i || slots[i] < slots[a]);
        }
    }
}

/// In an ascending sequence a position stands at one place only.
pub proof fn lemma_place_of(indices: Seq<usize>, k: int)
    requires
        ascending(indices),
        0 <= k < indices.len(),
    ensures
        place_of(indices, indices[k] as nat) == k,
{
    let found = place_of(indices, indices[k] as nat);
    assert(0 <= found < indices.len() && indices[found] == indices[k]);
    if found < k {
        assert(indices[found] < indices[k]);
    }
    if k < found {
        assert(indices[k] < indices[found]);
    }
}

/// A front over `lo..mid` followed by a front over `mid..hi` is a front over
/// `lo..hi`.
pub proof fn lemma_front_join<M: Merge>(
    n: nat,
    indices: Seq<usize>,
    proven: Seq<M::Item>,
    lemmas: Seq<M::Item>,
    low_slots: Seq<usize>,
    low_values: Seq<M::Item>,
    high_slots: Seq<usize>,
    high_values: Seq<M::Item>,
    lo: nat,
    mid: nat,
    hi: nat,
)
    requires
        lo <= mid <= hi,
        front_holds::<M>(n, indices, proven, lemmas, low_slots, low_values, lo, mid),
        front_holds::<M>(n, indices, proven, lemmas, high_slots, high_values, mid, hi),
    ensures
        front_holds::<M>(
            n,
            indices,
            proven,
            lemmas,
            low_slots + high_slots,
            low_values + high_values,
            lo,
            hi,
        ),
{
    let slots = low_slots + high_slots;
    let values = low_values + high_values;
    assert forall|a: int, b: int| 0 <= a < b < slots.len() implies slots[a] < slots[b] by {
        if b < low_slots.len() {
            assert(slots[a] == low_slots[a] && slots[b] == low_slots[b]);
        } else if a < low_slots.len() {
            assert(slots[a] == low_slots[a] && slots[b] == high_slots[b - low_slots.len()]);
        } else {
            assert(slots[a] == high_slots[a - low_slots.len()]);
            assert(slots[b] == high_slots[b - low_slots.len()]);
        }
    }
    assert forall|a: int| 0 <= a < slots.len() implies {
        &&& lo <= #[trigger] slots[a] < hi
        &&& covered(n, picked(indices), slots[a] as nat)
        &&& values[a] == claimed::<M>(n, indices, proven, lemmas, slots[a] as nat)
    } by {
        if a < low_slots.len() {
            assert(slots[a] == low_slots[a] && values[a] == low_values[a]);
        } else {
            assert(slots[a] == high_slots[a - low_slots.len()]);
            assert(values[a] == high_values[a - low_slots.len()]);
        }
    }
    assert forall|s: nat| lo <= s < hi && #[trigger] covered(n, picked(indices), s) implies picked(
        slots,
    ).contains(s) by {
        if s < mid {
            let a = choose|a: int| 0 <= a < low_slots.len() && #[trigger] low_slots[a] == s;
            assert(slots[a] == s);
        } else {
            let a = choose|a: int| 0 <= a < high_slots.len() && #[trigger] high_slots[a] == s;
            assert(slots[a + low_slots.len()] == s);
        }
    }
}

/// The part of a front below `cut` is a front over the range below `cut`.
pub proof fn lemma_front_prefix<M: Merge>(
    n: nat,
    indices: Seq<usize>,
    proven: Seq<M::Item>,
    lemmas: Seq<M::Item>,
    slots: Seq<usize>,
    values: Seq<M::Item>,
    lo: nat,
    hi: nat,
    p: int,
    cut: nat,
)
    requires
        front_holds::<M>(n, indices, proven, lemmas, slots, values, lo, hi),
        0 <= p <= slots.len(),
        lo <= cut <= hi,
        forall|a: int| 0 <= a < p ==> slots[a] < cut,
        forall|a: int| p <= a < slots.len() ==> slots[a] >= cut,
    ensures
        front_holds::<M>(n, indices, proven, lemmas, slots.take(p), values.take(p), lo, cut),
{
    let part = slots.take(p);
    assert forall|s: nat| lo <= s < cut && #[trigger] covered(n, picked(indices), s) implies picked(
        part,
    ).contains(s) by {
        let a = choose|a: int| 0 <= a < slots.len() && #[trigger] slots[a] == s;
        assert(part[a] == s);
    }
}

impl<M: Merge> MerkleProof<M> {
    /// A proof of the leaves at `indices` with the given lemmas. Nothing is
    /// asked of the two: a proof that is not well formed fails to verify.
    pub fn new(indices: Vec<usize>, lemmas: Vec<M::Item>) -> (made: Self)
        ensures
            made.indices == indices,
            made.lemmas == lemmas,
    {
        MerkleProof { indices, lemmas }
    }

    /// Recomputes the root of a tree of `leaf_count` leaves from the values
    /// `proven` of the leaves that the proof names, one for each position and
    /// in the same order. There is no root where the proof is not well
    /// formed for such a tree.
    #[verifier::rlimit(60)]
    pub fn root(&self, proven: &[M::Item], leaf_count: usize) -> (root: Option<M::Item>)
        ensures
            root == claimed_root::<M>(leaf_count as nat, self.indices@, proven@, self.lemmas@),
    {
        let n = leaf_count;
        let count = self.indices.len();
        if n > usize::MAX / 2 || count == 0 || count != proven.len() {
            return None;
        }
        let ghost indices = self.indices@;
        let ghost picks = picked(indices);
        let ghost lemmas = self.lemmas@;
        let ghost given = proven@;
        let mut slots: Vec<usize> = Vec::new();
        let mut values: Vec<M::Item> = Vec::new();
        let mut j: usize = 0;
        while j < count
            invariant
                2 * n <= usize::MAX,
                n == leaf_count,
                indices == self.indices@,
                lemmas == self.lemmas@,
                given == proven@,
                count == indices.len(),
                count == given.len(),
                j <= count,
                slots@.len() == j,
                values@.len() == j,
                forall|a: int, b: int| 0 <= a < b < j ==> indices[a] < indices[b],
                forall|a: int| 0 <= a < j ==> indices[a] < n,
                forall|a: int| 0 <= a < j ==> slots@[a] == n + indices[a],
                forall|a: int| 0 <= a < j ==> values@[a] == given[a],
            decreases count - j,
        {
            let index = self.indices[j];
            if index >= n {
                assert(!(indices[j as int] < n));
                return None;
            }
            if j > 0 && self.indices[j - 1] >= index {
                assert(!(indices[j - 1] < indices[j as int]));
                return None;
            }
            slots.push(n + index);
            values.push(proven[j]);
            j += 1;
        }
        assert(ascending(indices));
        assert(indices[0] < n);
        proof {
            assert forall|a: int| 0 <= a < slots@.len() implies {
                &&& n <= #[trigger] slots@[a] < 2 * n
                &&& covered(n as nat, picks, slots@[a] as nat)
                &&& values@[a] == claimed::<M>(n as nat, indices, given, lemmas, slots@[a] as nat)
            } by {
                assert(indices[a] == (slots@[a] - n) as nat);
                lemma_place_of(indices, a);
            }
            assert forall|s: nat| n <= s < 2 * n && #[trigger] covered(n as nat, picks, s) implies picked(
                slots@,
            ).contains(s) by {
                let k = choose|k: int| 0 <= k < indices.len() && #[trigger] indices[k] == (s - n) as nat;
                assert(slots@[k] == s);
            }
        }
        let mut start: usize = 1;
        let ghost mut depth: nat = 0;
        while start < n
            invariant
                2 * n <= usize::MAX,
                n >= 1,
                start == level_start(depth),
                start >= 1,
                start / 2 < n,
            decreases 2 * n - start,
        {
            start = 2 * start;
            proof {
                depth = depth + 1;
            }
        }
        let mut used: usize = 0;
        while start >= 2
            invariant
                2 * n <= usize::MAX,
                n >= 1,
                n == leaf_count,
                indices == self.indices@,
                lemmas == self.lemmas@,
                given == proven@,
                picks == picked(indices),
                indices.len() > 0,
                indices.len() == given.len(),
                ascending(indices),
                forall|k: int| 0 <= k < indices.len() ==> indices[k] < n,
                start == level_start(depth),
                start >= 1,
                start / 2 < n,
                slots@.len() >= 1,
                front_holds::<M>(
                    n as nat,
                    indices,
                    given,
                    lemmas,
                    slots@,
                    values@,
                    row_start(start as nat, n as nat),
                    2 * row_start(start as nat, n as nat),
                ),
                used == lemma_count(n as nat, picks, 2 * row_start(start as nat, n as nat), 2 * n as nat),
            decreases start,
        {
            let ghost lo = row_start(start as nat, n as nat);
            let ghost hi = 2 * lo;
            assert(start % 2 == 0 && depth >= 1);
            let mut p: usize = 0;
            while p < slots.len() && slots[p] < start
                invariant
                    p <= slots@.len(),
                    forall|a: int| 0 <= a < p ==> slots@[a] < start,
                decreases slots@.len() - p,
            {
                p += 1;
            }
            assert forall|a: int| p <= a < slots@.len() implies slots@[a] >= start by {
                assert(a == p || slots@[p as int] < slots@[a]);
            }
            let mut up_slots: Vec<usize> = Vec::new();
            let mut up_values: Vec<M::Item> = Vec::new();
            let mut i: usize = p;
            proof {
                let first = bound_at(slots@, p as int, hi);
                assert forall|t: nat| start <= t < first implies !covered(n as nat, picks, t) by {
                    lemma_front_gap(n as nat, picks, slots@, lo, hi, p as int, t);
                }
                lemma_count_none(n as nat, picks, start as nat, first);
                assert forall|t: nat|
                    start / 2 <= t < first / 2 implies !#[trigger] covered(n as nat, picks, t) by {
                    assert(!covered(n as nat, picks, 2 * t));
                    assert(!covered(n as nat, picks, 2 * t + 1));
                }
            }
            while i < slots.len()
                invariant
                    2 * n <= usize::MAX,
                    n >= 1,
                    n == leaf_count,
                    indices == self.indices@,
                    lemmas == self.lemmas@,
                    given == proven@,
                    picks == picked(indices),
                    start == level_start(depth),
                    depth >= 1,
                    start >= 2,
                    start % 2 == 0,
                    start / 2 < n,
                    lo == row_start(start as nat, n as nat),
                    hi == 2 * lo,
                    p <= i <= slots@.len(),
                    front_holds::<M>(n as nat, indices, given, lemmas, slots@, values@, lo, hi),
                    forall|a: int| p <= a < slots@.len() ==> slots@[a] >= start,
                    forall|a: int| 0 <= a < p ==> slots@[a] < start,
                    front_holds::<M>(
                        n as nat,
                        indices,
                        given,
                        lemmas,
                        up_slots@,
                        up_values@,
                        (start / 2) as nat,
                        bound_at(slots@, i as int, hi) / 2,
                    ),
                    i > p ==> slots@[i - 1] / 2 < bound_at(slots@, i as int, hi) / 2,
                    i > p ==> up_slots@.len() >= 1,
                    used == lemma_count(n as nat, picks, hi, 2 * n as nat) + lemma_count(
                        n as nat,
                        picks,
                        start as nat,
                        bound_at(slots@, i as int, hi),
                    ),
                decreases slots@.len() - i,
            {
                let s = slots[i];
                let v = values[i];
                let paired = s % 2 == 0 && i + 1 < slots.len() && slots[i + 1] == s + 1;
                let ghost step: int = if paired {
                    2
                } else {
                    1
                };
                let ghost next = bound_at(slots@, i + step, hi);
                let ghost reached = up_slots@;
                proof {
                    lemma_depth_of_level(s as nat, depth);
                    assert(i + step < slots@.len() ==> slots@[i + step - 1] < slots@[i + step]);
                    assert(s + step <= next);
                    assert(covered(n as nat, picks, (s / 2) as nat));
                    assert(claimed::<M>(n as nat, indices, given, lemmas, (s / 2) as nat)
                        == M::merged(
                        claimed::<M>(n as nat, indices, given, lemmas, (2 * (s / 2)) as nat),
                        claimed::<M>(n as nat, indices, given, lemmas, (2 * (s / 2) + 1) as nat),
                    ));
                    lemma_count_one(n as nat, picks, s as nat);
                }
                let parent: M::Item;
                if paired {
                    parent = M::merge(&v, &values[i + 1]);
                    proof {
                        assert(sibling(s as nat) == s + 1 && sibling((s + 1) as nat) == s);
                        lemma_count_one(n as nat, picks, (s + 1) as nat);
                        lemma_count_split(n as nat, picks, (s + 1) as nat, (s + 2) as nat, next);
                    }
                } else {
                    proof {
                        let other = sibling(s as nat);
                        if covered(n as nat, picks, other) {
                            let a = choose|a: int| 0 <= a < slots@.len() && #[trigger] slots@[a] == other;
                            if s % 2 == 0 {
                                assert(a > i) by {
                                    if a < i {
                                        assert(slots@[a] < slots@[i as int]);
                                    }
                                }
                                assert(a == i + 1 || slots@[i + 1] < slots@[a]);
                            } else {
                                assert(a < i) by {
                                    if a > i {
                                        assert(slots@[i as int] < slots@[a]);
                                    }
                                }
                                assert(a == i - 1 || slots@[a] < slots@[i - 1]);
                            }
                            assert(false);
                        }
                        assert(needs_lemma(n as nat, picks, s as nat));
                        assert(lemma_index(n as nat, picks, s as nat) == used);
                        assert(sibling(other) == s);
                    }
                    if used >= self.lemmas.len() {
                        proof {
                            let all = (2 * n) as nat;
                            lemma_count_split(n as nat, picks, 2, start as nat, all);
                            lemma_count_split(n as nat, picks, start as nat, s as nat, all);
                            lemma_count_split(n as nat, picks, s as nat, (s + 1) as nat, all);
                            lemma_count_split(n as nat, picks, (s + 1) as nat, hi, all);
                            assert(lemma_count(n as nat, picks, s as nat, (s + 1) as nat) == 1);
                            assert(lemma_count(n as nat, picks, 2, all) > used);
                            assert(!well_formed(n as nat, indices, given.len(), lemmas.len()));
                        }
                        return None;
                    }
                    let lemma = self.lemmas[used];
                    used += 1;
                    parent = if s % 2 == 0 {
                        M::merge(&v, &lemma)
                    } else {
                        M::merge(&lemma, &v)
                    };
                }
                up_slots.push(s / 2);
                up_values.push(parent);
                proof {
                    lemma_picked_push(reached, s / 2);
                    assert forall|t: nat| s + step <= t < next implies !covered(n as nat, picks, t) by {
                        lemma_front_gap(n as nat, picks, slots@, lo, hi, i + step, t);
                    }
                    lemma_count_none(n as nat, picks, (s + step) as nat, next);
                    lemma_count_split(n as nat, picks, start as nat, s as nat, next);
                    lemma_count_split(n as nat, picks, s as nat, (s + 1) as nat, next);
                    assert(s / 2 < next / 2);
                    assert forall|t: nat|
                        start / 2 <= t < next / 2 && #[trigger] covered(n as nat, picks, t) implies picked(
                        up_slots@,
                    ).contains(t) by {
                        if t > s / 2 {
                            assert(!covered(n as nat, picks, 2 * t));
                            assert(!covered(n as nat, picks, 2 * t + 1));
                        }
                    }
                    assert forall|a: int, b: int| 0 <= a < b < up_slots@.len() implies up_slots@[a]
                        < up_slots@[b] by {
                        if b < reached.len() {
                            assert(reached[a] < reached[b]);
                        } else {
                            assert(reached[a] < s / 2);
                        }
                    }
                }
                i += if paired {
                    2
                } else {
                    1
                };
            }
            let ghost parent_slots = up_slots@;
            let ghost parent_values = up_values@;
            let mut q: usize = 0;
            while q < p
                invariant
                    q <= p <= slots@.len(),
                    slots@.len() == values@.len(),
                    up_slots@ == parent_slots + slots@.take(q as int),
                    up_values@ == parent_values + values@.take(q as int),
                decreases p - q,
            {
                up_slots.push(slots[q]);
                up_values.push(values[q]);
                q += 1;
                assert(slots@.take(q as int) =~= slots@.take(q - 1).push(slots@[q - 1]));
                assert(values@.take(q as int) =~= values@.take(q - 1).push(values@[q - 1]));
                assert(up_slots@ =~= parent_slots + slots@.take(q as int));
                assert(up_values@ =~= parent_values + values@.take(q as int));
            }
            proof {
                lemma_front_prefix::<M>(
                    n as nat,
                    indices,
                    given,
                    lemmas,
                    slots@,
                    values@,
                    lo,
                    hi,
                    p as int,
                    start as nat,
                );
                lemma_front_join::<M>(
                    n as nat,
                    indices,
                    given,
                    lemmas,
                    parent_slots,
                    parent_values,
                    slots@.take(p as int),
                    values@.take(p as int),
                    (start / 2) as nat,
                    lo,
                    start as nat,
                );
                lemma_count_split(n as nat, picks, start as nat, hi, 2 * n as nat);
                depth = (depth - 1) as nat;
            }
            slots = up_slots;
            values = up_values;
            start = start / 2;
        }
        assert(slots@[0] == 1);
        if used != self.lemmas.len() {
            return None;
        }
        Some(values[0])
    }

    /// Whether the proof, with the values `proven` of the leaves it names,
    /// leads to `expected_root` in a tree of `leaf_count` leaves.
    pub fn verify(&self, proven: &[M::Item], expected_root: &M::Item, leaf_count: usize) -> (ok:
        bool)
        ensures
            ok == (claimed_root::<M>(leaf_count as nat, self.indices@, proven@, self.lemmas@)
                == Some(*expected_root)),
    {
        match self.root(proven, leaf_count) {
            Some(root) => M::same(&root, expected_root),
            None => false,
        }
    }
}

} // verus!
