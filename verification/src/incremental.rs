//! Append-only incremental Merkle tree of fixed depth: a running root is
//! maintained as leaf digests arrive one at a time, against precomputed
//! "empty subtree" digests, with one retained "last completed left subtree"
//! slot per level.
//!
//! Padding convention, pinned once for both tree structures: empty leaf
//! slots here hold the same digest the batch tree pads with, so that for a
//! leaf count whose padded width matches this tree's full width, the root
//! returned by the last insertion equals the batch tree's root over the same
//! leaves in the same order (`lemma_incremental_batch_agreement`).

use vstd::prelude::*;
use vstd::pervasive::VecAdditionalExecFns;
use vstd::arithmetic::power2::{pow2, lemma2_to64, lemma_pow2_adds, lemma_pow2_pos, lemma_pow2_unfold, lemma_pow2_strictly_increases};
use vstd::arithmetic::div_mod::{
    lemma_div_denominator,
    lemma_fundamental_div_mod,
    lemma_fundamental_div_mod_converse,
};
use vstd::arithmetic::mul::lemma_mul_inequality;
use crate::digest::{Hash32, sha256, hash_pair, hash_pair_of};
use crate::merkle::{
    leaf_digests_of,
    levels_root,
    merkle_root_spec,
    next_level,
    next_pow2,
    pad_to,
    padding_digest,
};

verus! {

/// The digest standing in every leaf slot that has not been inserted yet:
/// the same digest the batch tree pads with. Sharing one fill sentinel
/// between the two structures is the pinned convention that makes the root
/// returned by the last insertion equal the batch root over the same leaves.
pub open spec fn zero_leaf_digest() -> Seq<u8> {
    padding_digest()
}

/// The digest of a subtree of the given height whose leaf slots all hold the
/// fill digest: the fill itself at height 0, and each level the hash of the
/// level below paired with itself.
pub open spec fn zero_chain(fill: Seq<u8>, i: nat) -> Seq<u8>
    decreases i,
{
    if i == 0 {
        fill
    } else {
        hash_pair_of(zero_chain(fill, (i - 1) as nat), zero_chain(fill, (i - 1) as nat))
    }
}

/// The root of the height-`lvl` subtree covering leaf positions
/// `[idx * 2^lvl, (idx + 1) * 2^lvl)`, where positions at or past the end of
/// the inserted sequence hold the fill digest.
pub open spec fn subtree_root(leaves: Seq<Seq<u8>>, fill: Seq<u8>, lvl: nat, idx: nat) -> Seq<u8>
    decreases lvl,
{
    if lvl == 0 {
        if idx < leaves.len() {
            leaves[idx as int]
        } else {
            fill
        }
    } else {
        hash_pair_of(
            subtree_root(leaves, fill, (lvl - 1) as nat, 2 * idx),
            subtree_root(leaves, fill, (lvl - 1) as nat, 2 * idx + 1),
        )
    }
}

/// After `k >= 1` insertions, the level-`i` block index of the most recently
/// completed left subtree at that level.
pub open spec fn last_left_block(k: nat, i: nat) -> nat
    recommends
        1 <= k,
{
    let t = ((k - 1) as nat) / pow2(i);
    if t % 2 == 0 {
        t
    } else {
        (t - 1) as nat
    }
}

/// What one per-level slot holds: nothing before the first insertion, and
/// afterwards the root of the most recently completed left subtree at that
/// level.
pub open spec fn slot_wf(slot: Option<Hash32>, leaves: Seq<Seq<u8>>, i: nat) -> bool {
    if leaves.len() == 0 {
        slot is None
    } else {
        slot is Some && slot->0@ == subtree_root(leaves, zero_leaf_digest(), i,
            last_left_block(leaves.len(), i))
    }
}

/// Division block bounds: `(k / p) * p <= k < (k / p + 1) * p`.
proof fn lemma_div_block(k: nat, p: nat)
    requires
        1 <= p,
    ensures
        (k as int / p as int) * p <= k,
        k < ((k as int / p as int) + 1) * p,
{
    let q = k as int / p as int;
    let r = (k as int) % (p as int);
    lemma_fundamental_div_mod(k as int, p as int);
    assert(0 <= r && r < p as int) by {
        vstd::arithmetic::div_mod::lemma_mod_division_less_than_divisor(k as int, p as int);
    }
    assert(q * p <= k && k < (q + 1) * p) by (nonlinear_arith)
        requires
            k as int == (p as int) * q + r,
            0 <= r,
            r < p as int,
            1 <= p as int,
            0 <= k as int,
    ;
}

/// A subtree that starts at or past the end of the inserted sequence is an
/// all-fill subtree.
proof fn lemma_subtree_all_zero(leaves: Seq<Seq<u8>>, fill: Seq<u8>, lvl: nat, idx: nat)
    requires
        idx * pow2(lvl) >= leaves.len(),
    ensures
        subtree_root(leaves, fill, lvl, idx) == zero_chain(fill, lvl),
    decreases lvl,
{
    if lvl == 0 {
        assert(pow2(0) == 1) by {
            lemma2_to64();
        }
    } else {
        let l1 = (lvl - 1) as nat;
        lemma_pow2_unfold(lvl);
        assert((2 * idx) * pow2(l1) == idx * pow2(lvl)) by (nonlinear_arith)
            requires pow2(lvl) == 2 * pow2(l1);
        assert((2 * idx + 1) * pow2(l1) >= idx * pow2(lvl)) by (nonlinear_arith)
            requires pow2(lvl) == 2 * pow2(l1), pow2(l1) >= 0;
        lemma_subtree_all_zero(leaves, fill, l1, 2 * idx);
        lemma_subtree_all_zero(leaves, fill, l1, 2 * idx + 1);
    }
}

/// Appending a leaf past the end of a block leaves that block's subtree root
/// unchanged.
proof fn lemma_subtree_push_outside(leaves: Seq<Seq<u8>>, x: Seq<u8>, fill: Seq<u8>, lvl: nat, idx: nat)
    requires
        (idx + 1) * pow2(lvl) <= leaves.len(),
    ensures
        subtree_root(leaves.push(x), fill, lvl, idx) == subtree_root(leaves, fill, lvl, idx),
    decreases lvl,
{
    if lvl == 0 {
        assert(pow2(0) == 1) by {
            lemma2_to64();
        }
        assert(leaves.push(x)[idx as int] == leaves[idx as int]);
    } else {
        let l1 = (lvl - 1) as nat;
        lemma_pow2_unfold(lvl);
        assert((2 * idx + 2) * pow2(l1) == (idx + 1) * pow2(lvl)) by (nonlinear_arith)
            requires pow2(lvl) == 2 * pow2(l1);
        assert((2 * idx + 1) * pow2(l1) <= (2 * idx + 2) * pow2(l1)) by (nonlinear_arith)
            requires pow2(l1) >= 0;
        lemma_subtree_push_outside(leaves, x, fill, l1, 2 * idx);
        lemma_subtree_push_outside(leaves, x, fill, l1, 2 * idx + 1);
    }
}

/// The digest standing at one level's frontier after a sequence of
/// insertions: before any insertion the level's empty-subtree digest, and
/// afterwards the root of the most recently completed left subtree at that
/// level.
pub open spec fn frontier_of(leaves: Seq<Seq<u8>>, i: nat) -> Seq<u8> {
    if leaves.len() == 0 {
        zero_chain(zero_leaf_digest(), i)
    } else {
        subtree_root(leaves, zero_leaf_digest(), i, last_left_block(leaves.len(), i))
    }
}

/// The fold the root accessor performs: level 0's frontier, then each
/// level's frontier hashed in front of the running value.
pub open spec fn frontier_fold_of(leaves: Seq<Seq<u8>>, i: nat) -> Seq<u8>
    decreases i,
{
    if i == 0 {
        frontier_of(leaves, 0)
    } else {
        hash_pair_of(frontier_of(leaves, i), frontier_fold_of(leaves, (i - 1) as nat))
    }
}

/// What the root accessor returns for a given insertion history: the
/// top-level empty-subtree digest before any insertion, and otherwise the
/// stored-frontier fold up to the top level.
pub open spec fn incremental_root_of(leaves: Seq<Seq<u8>>, depth: nat) -> Seq<u8>
    recommends
        1 <= depth,
{
    if leaves.len() == 0 {
        zero_chain(zero_leaf_digest(), (depth - 1) as nat)
    } else {
        frontier_fold_of(leaves, (depth - 1) as nat)
    }
}

/// Incremental Merkle tree for streaming updates: fixed depth, per-level
/// empty-subtree digests, one retained left-subtree digest per level, and a
/// running insertion counter. The sequence of inserted leaf digests is
/// tracked in ghost state.
pub struct IncrementalMerkleTree {
    depth: usize,
    zeros: Vec<Hash32>,
    filled: Vec<Option<Hash32>>,
    next_index: usize,
    inserted: Ghost<Seq<Seq<u8>>>,
}

impl IncrementalMerkleTree {
    /// The tree's fixed depth.
    pub closed spec fn spec_depth(&self) -> nat {
        self.depth as nat
    }

    /// How many leaves have been inserted.
    pub closed spec fn num_inserted(&self) -> nat {
        self.next_index as nat
    }

    /// The digests inserted so far, in order.
    pub closed spec fn inserted_leaves(&self) -> Seq<Seq<u8>> {
        self.inserted@
    }

    /// Structural well-formedness: the per-level digests and slots match the
    /// ghost insertion history.
    pub closed spec fn wf(&self) -> bool {
        &&& 1 <= self.depth
        &&& pow2(self.depth as nat) <= usize::MAX
        &&& self.zeros@.len() == self.depth
        &&& self.filled@.len() == self.depth
        &&& forall|i: int| 0 <= i < self.depth ==> (#[trigger] self.zeros@[i])@ == zero_chain(
            zero_leaf_digest(), i as nat)
        &&& self.next_index == self.inserted@.len()
        &&& self.inserted@.len() <= pow2(self.depth as nat)
        &&& forall|i: int| #![trigger self.filled@[i]]
            0 <= i < self.depth ==> slot_wf(self.filled@[i], self.inserted@, i as nat)
    }

    /// Creates an empty tree of the given depth (at least 1, with a leaf
    /// capacity that fits the machine's word).
    pub fn new(depth: usize) -> (r: IncrementalMerkleTree)
        requires
            1 <= depth,
            pow2(depth as nat) <= usize::MAX,
        ensures
            r.wf(),
            r.spec_depth() == depth,
            r.num_inserted() == 0,
            r.inserted_leaves() == Seq::<Seq<u8>>::empty(),
    {
        let zeros = compute_zeros(depth);
        let mut filled: Vec<Option<Hash32>> = Vec::new();
        let mut i: usize = 0;
        while i < depth
            invariant
                i <= depth,
                filled@.len() == i,
                forall|j: int| 0 <= j < i ==> (#[trigger] filled@[j]) is None,
            decreases depth - i,
        {
            filled.push(None);
            i += 1;
        }
        IncrementalMerkleTree {
            depth,
            zeros,
            filled,
            next_index: 0,
            inserted: Ghost(Seq::empty()),
        }
    }

    /// Inserts one leaf digest and returns the root of the fixed-depth tree
    /// over everything inserted so far, with every not-yet-inserted slot
    /// holding the zero digest.
    #[verifier::rlimit(100)]
    pub fn insert(&mut self, leaf: Hash32) -> (r: Hash32)
        requires
            old(self).wf(),
            old(self).num_inserted() < pow2(old(self).spec_depth()),
        ensures
            final(self).wf(),
            final(self).spec_depth() == old(self).spec_depth(),
            final(self).num_inserted() == old(self).num_inserted() + 1,
            final(self).inserted_leaves() == old(self).inserted_leaves().push(leaf@),
            r@ == subtree_root(final(self).inserted_leaves(), zero_leaf_digest(),
                old(self).spec_depth(), 0),
    {
        let ghost k = self.next_index as nat;
        let ghost old_leaves = self.inserted@;
        let ghost new_leaves = old_leaves.push(leaf@);
        self.inserted = Ghost(new_leaves);
        let depth = self.depth;
        let mut current = leaf;
        let mut index = self.next_index;
        let mut i: usize = 0;
        proof {
            assert(pow2(0) == 1) by {
                lemma2_to64();
            }
        }
        while i < depth
            invariant
                i <= depth,
                depth == self.depth,
                self.depth == old(self).depth,
                self.zeros == old(self).zeros,
                self.next_index == old(self).next_index,
                self.inserted@ == new_leaves,
                1 <= depth,
                pow2(depth as nat) <= usize::MAX,
                self.zeros@.len() == depth,
                self.filled@.len() == depth,
                forall|j: int| 0 <= j < depth ==> (#[trigger] self.zeros@[j])@ == zero_chain(
                    zero_leaf_digest(), j as nat),
                k == old_leaves.len(),
                k < pow2(depth as nat),
                new_leaves == old_leaves.push(leaf@),
                index as nat == k / pow2(i as nat),
                current@ == subtree_root(new_leaves, zero_leaf_digest(), i as nat,
                    k / pow2(i as nat)),
                forall|j: int| #![trigger self.filled@[j]]
                    i <= j < depth ==> slot_wf(self.filled@[j], old_leaves, j as nat),
                forall|j: int| #![trigger self.filled@[j]]
                    0 <= j < i ==> slot_wf(self.filled@[j], new_leaves, j as nat),
            decreases depth - i,
        {
            let ghost p = pow2(i as nat);
            let ghost idx = k / p;
            proof {
                lemma_pow2_pos(i as nat);
                lemma_div_block(k, p);
                lemma_pow2_adds(i as nat, 1);
                assert(pow2(1) == 2) by {
                    lemma2_to64();
                }
                lemma_div_denominator(k as int, p as int, 2);
                assert(k / pow2((i + 1) as nat) == idx / 2);
            }
            let ghost old_filled = self.filled@;
            if index % 2 == 0 {
                self.filled.set(i, Some(current));
                let z = self.zeros[i];
                let ghost prev = current@;
                current = hash_pair(&current, &z);
                proof {
                    assert(idx * p <= k < (idx + 1) * p);
                    lemma_subtree_all_zero(new_leaves, zero_leaf_digest(), i as nat, idx + 1);
                    assert(2 * (idx / 2) == idx);
                    assert(subtree_root(new_leaves, zero_leaf_digest(), (i + 1) as nat, idx / 2)
                        == hash_pair_of(
                            subtree_root(new_leaves, zero_leaf_digest(), i as nat, idx),
                            subtree_root(new_leaves, zero_leaf_digest(), i as nat, idx + 1),
                        ));
                    assert(current@ == subtree_root(new_leaves, zero_leaf_digest(),
                        (i + 1) as nat, k / pow2((i + 1) as nat)));
                    assert(last_left_block(k + 1, i as nat) == idx);
                    assert forall|j: int| 0 <= j < i + 1 implies #[trigger] slot_wf(
                        self.filled@[j], new_leaves, j as nat) by {
                        if j < i {
                            assert(self.filled@[j] == old_filled[j]);
                        } else {
                            assert(self.filled@[i as int] is Some);
                            assert(self.filled@[i as int]->0@ == prev);
                        }
                    }
                    assert forall|j: int| i + 1 <= j < depth implies #[trigger] slot_wf(
                        self.filled@[j], old_leaves, j as nat) by {
                        assert(self.filled@[j] == old_filled[j]);
                    }
                }
            } else {
                proof {
                    assert(idx % 2 == 1);
                    assert(idx >= 1);
                    lemma_mul_inequality(1, idx as int, p as int);
                    assert(k >= p);
                    assert(k >= 1);
                    assert(slot_wf(self.filled@[i as int], old_leaves, i as nat));
                }
                let left = match &self.filled[i] {
                    Some(h) => *h,
                    None => self.zeros[i],
                };
                current = hash_pair(&left, &current);
                proof {
                    // The block index of the last completed left subtree at
                    // this level is the left sibling, idx - 1.
                    let t = ((k - 1) as nat) / p;
                    if k == idx * p {
                        assert((k - 1) as int == (idx as int - 1) * (p as int) + (p as int - 1))
                            by (nonlinear_arith)
                            requires
                                k as int == (idx as int) * (p as int),
                                1 <= p as int,
                        ;
                        lemma_fundamental_div_mod_converse((k - 1) as int, p as int,
                            idx as int - 1, p as int - 1);
                        assert(t == idx - 1);
                    } else {
                        assert((idx as int + 1) * (p as int) == (idx as int) * (p as int)
                            + (p as int)) by (nonlinear_arith);
                        lemma_fundamental_div_mod_converse((k - 1) as int, p as int, idx as int,
                            (k as int) - 1 - (idx as int) * (p as int));
                        assert(t == idx);
                    }
                    assert(last_left_block(k, i as nat) == idx - 1);
                    assert(left@ == subtree_root(old_leaves, zero_leaf_digest(), i as nat,
                        (idx - 1) as nat));
                    assert(idx * p <= old_leaves.len()) by {
                        assert(idx * p <= k);
                    }
                    assert(((idx - 1) + 1) * p == idx * p);
                    lemma_subtree_push_outside(old_leaves, leaf@, zero_leaf_digest(), i as nat,
                        (idx - 1) as nat);
                    assert(left@ == subtree_root(new_leaves, zero_leaf_digest(), i as nat,
                        (idx - 1) as nat));
                    assert(2 * (idx / 2) + 1 == idx);
                    assert(2 * (idx / 2) == idx - 1);
                    assert(subtree_root(new_leaves, zero_leaf_digest(), (i + 1) as nat, idx / 2)
                        == hash_pair_of(
                            subtree_root(new_leaves, zero_leaf_digest(), i as nat,
                                (idx - 1) as nat),
                            subtree_root(new_leaves, zero_leaf_digest(), i as nat, idx),
                        ));
                    assert(current@ == subtree_root(new_leaves, zero_leaf_digest(),
                        (i + 1) as nat, k / pow2((i + 1) as nat)));
                    // Slots are unchanged; the slot at this level already
                    // matches the new leaf sequence.
                    assert(last_left_block(k + 1, i as nat) == idx - 1);
                    assert forall|j: int| 0 <= j < i + 1 implies #[trigger] slot_wf(
                        self.filled@[j], new_leaves, j as nat) by {
                        if j == i {
                            assert(slot_wf(self.filled@[j], old_leaves, i as nat));
                        }
                    }
                }
            }
            index = index / 2;
            i += 1;
        }
        self.next_index = self.next_index + 1;
        proof {
            assert(k < pow2(depth as nat));
            lemma_fundamental_div_mod_converse(k as int, pow2(depth as nat) as int, 0, k as int);
            assert(k / pow2(depth as nat) == 0);
            assert(self.wf());
        }
        current
    }

    /// The current root by the stored-frontier fold: before any insertion the
    /// top empty-subtree digest, afterwards level 0's frontier combined
    /// upward with each level's frontier digest placed first.
    pub fn root(&self) -> (r: Hash32)
        requires
            self.wf(),
        ensures
            r@ == incremental_root_of(self.inserted_leaves(), self.spec_depth()),
            self.num_inserted() == 0 ==> r@ == zero_chain(zero_leaf_digest(),
                (self.spec_depth() - 1) as nat),
    {
        if self.next_index == 0 {
            return self.zeros[self.depth - 1];
        }
        let mut current = match &self.filled[0] {
            Some(h) => *h,
            None => self.zeros[0],
        };
        let mut i: usize = 1;
        proof {
            assert(slot_wf(self.filled@[0], self.inserted@, 0));
            assert(current@ == frontier_of(self.inserted@, 0));
        }
        while i < self.depth
            invariant
                self.wf(),
                self.num_inserted() >= 1,
                1 <= i <= self.depth,
                current@ == frontier_fold_of(self.inserted@, (i - 1) as nat),
            decreases self.depth - i,
        {
            let sibling = match &self.filled[i] {
                Some(h) => *h,
                None => self.zeros[i],
            };
            proof {
                assert(slot_wf(self.filled@[i as int], self.inserted@, i as nat));
                assert(sibling@ == frontier_of(self.inserted@, i as nat));
            }
            current = hash_pair(&sibling, &current);
            i += 1;
        }
        current
    }
}

/// Per-level empty-subtree digests: level 0 is the shared fill-slot digest
/// (the digest of the padding sentinel), and each further level hashes the
/// previous one with itself.
fn compute_zeros(depth: usize) -> (r: Vec<Hash32>)
    requires
        1 <= depth,
    ensures
        r@.len() == depth,
        forall|i: int| 0 <= i < depth ==> (#[trigger] r@[i])@ == zero_chain(zero_leaf_digest(),
            i as nat),
{
    let mut zeros: Vec<Hash32> = Vec::new();
    let sentinel = crate::merkle::padding_sentinel_bytes();
    zeros.push(sha256(sentinel.as_slice()));
    let mut i: usize = 1;
    while i < depth
        invariant
            1 <= i <= depth,
            zeros@.len() == i,
            forall|j: int| 0 <= j < i ==> (#[trigger] zeros@[j])@ == zero_chain(
                zero_leaf_digest(), j as nat),
        decreases depth - i,
    {
        let last = zeros[i - 1];
        zeros.push(hash_pair(&last, &last));
        i += 1;
    }
    zeros
}

/// Structural agreement between the incremental and batch shapes: for any
/// fill digest and any depth, the zero-padded subtree root over a non-empty
/// digest sequence equals the batch root of the same digests padded on the
/// right with that fill up to the full width.
pub proof fn lemma_incremental_matches_batch(leaf_digests: Seq<Seq<u8>>, fill: Seq<u8>, d: nat)
    requires
        1 <= leaf_digests.len(),
        leaf_digests.len() <= pow2(d),
    ensures
        subtree_root(leaf_digests, fill, d, 0) == levels_root(pad_to(leaf_digests, pow2(d),
            fill)),
{
    let row0 = Seq::new(pow2(d), |t: int| subtree_root(leaf_digests, fill, 0, t as nat));
    assert(pow2(0) == 1) by {
        lemma2_to64();
    }
    assert(pad_to(leaf_digests, pow2(d), fill) =~= row0);
    lemma_row_levels(leaf_digests, fill, d, 0);
}

/// Repeated pairing of the row of level-`j` subtree roots reaches the full
/// subtree root.
proof fn lemma_row_levels(leaf_digests: Seq<Seq<u8>>, fill: Seq<u8>, d: nat, j: nat)
    requires
        j <= d,
    ensures
        levels_root(Seq::new(pow2((d - j) as nat),
            |t: int| subtree_root(leaf_digests, fill, j, t as nat))) == subtree_root(
            leaf_digests, fill, d, 0),
    decreases d - j,
{
    let row = Seq::new(pow2((d - j) as nat), |t: int| subtree_root(leaf_digests, fill, j,
        t as nat));
    if j == d {
        assert(pow2(0) == 1) by {
            lemma2_to64();
        }
        assert(levels_root(row) == row[0]);
    } else {
        lemma_pow2_unfold((d - j) as nat);
        lemma_pow2_strictly_increases(0, (d - j) as nat);
        assert(pow2(0) == 1) by {
            lemma2_to64();
        }
        let row2 = Seq::new(pow2((d - j - 1) as nat), |t: int| subtree_root(leaf_digests, fill,
            (j + 1) as nat, t as nat));
        assert(next_level(row) =~= row2);
        lemma_row_levels(leaf_digests, fill, d, (j + 1) as nat);
        assert(levels_root(row) == levels_root(next_level(row)));
    }
}

/// Incremental/batch agreement: the two structures share one fill sentinel,
/// so when the batch's padded width equals the incremental tree's full width
/// the root returned by the last incremental insertion — the zero-padded
/// subtree root that `insert` ensures — equals the batch tree's root over
/// the same leaves in the same order.
pub proof fn lemma_incremental_batch_agreement(datas: Seq<Seq<u8>>, d: nat)
    requires
        1 <= datas.len(),
        datas.len() <= pow2(d),
        next_pow2(datas.len()) == pow2(d),
    ensures
        subtree_root(leaf_digests_of(datas), zero_leaf_digest(), d, 0) == merkle_root_spec(
            datas),
{
    lemma_incremental_matches_batch(leaf_digests_of(datas), zero_leaf_digest(), d);
    assert(leaf_digests_of(datas).len() == datas.len());
    assert(pad_to(leaf_digests_of(datas), pow2(d), zero_leaf_digest()) == pad_to(
        leaf_digests_of(datas), next_pow2(datas.len()), padding_digest()));
}

} // verus!
