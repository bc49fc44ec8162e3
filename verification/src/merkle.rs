//! Batch Merkle tree over opaque byte leaves: deterministic padding to a
//! power of two, bottom-up construction, proof extraction and verification.
//!
//! Side-flag convention, fixed once for generation and verification alike:
//! the flag stored at each level is the parity of the running node's position
//! in that level. Flag 0 means the running digest was the left child, so
//! verification hashes (running ++ sibling); flag 1 hashes (sibling ++
//! running). This reconstructs the exact byte concatenation used at build
//! time for every leaf position.

use vstd::prelude::*;
use vstd::arithmetic::power2::{
    pow2,
    lemma_pow2_adds,
    lemma_pow2_strictly_increases,
    lemma_pow2_unfold,
};
use vstd::arithmetic::div_mod::{lemma_fundamental_div_mod, lemma_fundamental_div_mod_converse};
use crate::digest::{Hash32, sha256, sha256_of, hash_pair, hash_pair_of};
use crate::error::{CantorError, decimal_digits, decimal_string};
use crate::types::{MerkleProof, fold_proof_path, combine_step, hashes_view};

verus! {

/// The byte string "empty", hashed for the root of a tree with no leaves.
pub open spec fn empty_sentinel() -> Seq<u8> {
    seq![101u8, 109u8, 112u8, 116u8, 121u8]
}

/// The byte string "padding", hashed once for every unused leaf slot.
pub open spec fn padding_sentinel() -> Seq<u8> {
    seq![112u8, 97u8, 100u8, 100u8, 105u8, 110u8, 103u8]
}

/// Root of a tree built over zero leaves.
pub open spec fn empty_tree_root() -> Seq<u8> {
    sha256_of(empty_sentinel())
}

/// The one digest repeated in every padding slot, shared by all trees.
pub open spec fn padding_digest() -> Seq<u8> {
    sha256_of(padding_sentinel())
}

/// A digest sequence padded on the right with copies of one fill digest.
pub open spec fn pad_to(digests: Seq<Seq<u8>>, target: nat, fill: Seq<u8>) -> Seq<Seq<u8>>
    recommends
        digests.len() <= target,
{
    digests + Seq::new((target - digests.len()) as nat, |i: int| fill)
}

/// One level up: adjacent nodes paired in original order and hashed.
pub open spec fn next_level(level: Seq<Seq<u8>>) -> Seq<Seq<u8>>
    recommends
        level.len() % 2 == 0,
{
    Seq::new(level.len() / 2, |i: int| hash_pair_of(level[2 * i], level[2 * i + 1]))
}

/// The root reached from a level by repeated pairing until one node remains.
pub open spec fn levels_root(level: Seq<Seq<u8>>) -> Seq<u8>
    decreases level.len(),
{
    if level.len() <= 1 {
        if level.len() == 1 {
            level[0]
        } else {
            empty_tree_root()
        }
    } else {
        levels_root(next_level(level))
    }
}

/// The smallest power of two that is at least `n`, reached by doubling `p`.
pub open spec fn next_pow2_from(n: nat, p: nat) -> nat
    decreases 2 * n - p when p >= 1
{
    if p >= n {
        p
    } else {
        next_pow2_from(n, 2 * p)
    }
}

/// The smallest power of two that is at least `n` (and at least 1).
pub open spec fn next_pow2(n: nat) -> nat {
    next_pow2_from(n, 1)
}

/// The digests of a sequence of raw leaf payloads.
pub open spec fn leaf_digests_of(datas: Seq<Seq<u8>>) -> Seq<Seq<u8>> {
    datas.map_values(|d: Seq<u8>| sha256_of(d))
}

/// The byte-sequence views of a sequence of byte vectors.
pub open spec fn datas_view(datas: Seq<Vec<u8>>) -> Seq<Seq<u8>> {
    datas.map_values(|d: Vec<u8>| d@)
}

/// The root a batch build commits to: the empty-tree sentinel digest for zero
/// leaves, otherwise the repeated pairing of the leaf digests padded on the
/// right with the padding digest up to the next power of two.
pub open spec fn merkle_root_spec(datas: Seq<Seq<u8>>) -> Seq<u8> {
    if datas.len() == 0 {
        empty_tree_root()
    } else {
        levels_root(pad_to(leaf_digests_of(datas), next_pow2(datas.len()), padding_digest()))
    }
}

/// The level-`j` row of the padded tree over a leaf-digest sequence: the
/// digest row padded on the right with the shared padding digest up to the
/// next power of two, then paired `j` times.
pub open spec fn tree_level_of(leaf_digests: Seq<Seq<u8>>, j: nat) -> Seq<Seq<u8>>
    decreases j,
{
    if j == 0 {
        pad_to(leaf_digests, next_pow2(leaf_digests.len()), padding_digest())
    } else {
        next_level(tree_level_of(leaf_digests, (j - 1) as nat))
    }
}

/// The position of the ancestor of leaf position `index` at level `j`: the
/// position halved once per level.
pub open spec fn ancestor_pos(index: nat, j: nat) -> nat
    decreases j,
{
    if j == 0 {
        index
    } else {
        ancestor_pos(index, (j - 1) as nat) / 2
    }
}

/// The ancestor position at level `j` is the leaf position divided by the
/// level's subtree width.
pub proof fn lemma_ancestor_is_div(index: nat, j: nat)
    ensures
        ancestor_pos(index, j) == index / pow2(j),
    decreases j,
{
    assert(pow2(0) == 1) by {
        vstd::arithmetic::power2::lemma2_to64();
    }
    if j == 0 {
        vstd::arithmetic::div_mod::lemma_div_basics(index as int);
        assert(index / pow2(0) == index);
    } else {
        lemma_ancestor_is_div(index, (j - 1) as nat);
        vstd::arithmetic::power2::lemma_pow2_pos((j - 1) as nat);
        lemma_pow2_adds((j - 1) as nat, 1);
        assert(pow2(1) == 2) by {
            vstd::arithmetic::power2::lemma2_to64();
        }
        let p1 = pow2((j - 1) as nat) as int;
        assert(pow2(j) == p1 * 2);
        let d = index as int / p1;
        let a = d / 2;
        lemma_fundamental_div_mod(index as int, p1);
        let r1 = index as int % p1;
        vstd::arithmetic::div_mod::lemma_mod_division_less_than_divisor(index as int, p1);
        lemma_fundamental_div_mod(d, 2);
        let r2 = d % 2;
        vstd::arithmetic::div_mod::lemma_mod_division_less_than_divisor(d, 2);
        assert(index as int == (p1 * 2) * a + (p1 * r2 + r1) && 0 <= p1 * r2 + r1
            && p1 * r2 + r1 < p1 * 2) by (nonlinear_arith)
            requires
                index as int == p1 * d + r1,
                d == 2 * a + r2,
                0 <= r1 < p1,
                0 <= r2 < 2,
                1 <= p1,
        ;
        lemma_fundamental_div_mod_converse(index as int, p1 * 2, a, p1 * r2 + r1);
        assert(index as int / (p1 * 2) == a);
        assert(ancestor_pos(index, j) == a);
    }
}

/// The position, within level `j`, of the sibling of the ancestor of leaf
/// position `index` at that level.
pub open spec fn sibling_pos(index: nat, j: nat) -> nat {
    let ci = ancestor_pos(index, j);
    if ci % 2 == 0 {
        ci + 1
    } else {
        (ci - 1) as nat
    }
}

/// The byte string "empty".
fn empty_sentinel_bytes() -> (r: Vec<u8>)
    ensures
        r@ == empty_sentinel(),
{
    let mut v: Vec<u8> = Vec::new();
    v.push(101);
    v.push(109);
    v.push(112);
    v.push(116);
    v.push(121);
    proof {
        assert(v@ =~= empty_sentinel());
    }
    v
}

/// The byte string "padding".
pub(crate) fn padding_sentinel_bytes() -> (r: Vec<u8>)
    ensures
        r@ == padding_sentinel(),
{
    let mut v: Vec<u8> = Vec::new();
    v.push(112);
    v.push(97);
    v.push(100);
    v.push(100);
    v.push(105);
    v.push(110);
    v.push(103);
    proof {
        assert(v@ =~= padding_sentinel());
    }
    v
}

/// The smallest power of two at least `n`.
fn next_power_of_two(n: usize) -> (r: usize)
    requires
        1 <= n,
        n <= usize::MAX / 2 + 1,
    ensures
        r as nat == next_pow2(n as nat),
        n <= r,
        exists|e: nat| pow2(e) == r as nat,
{
    let mut t: usize = 1;
    proof {
        assert(pow2(0) == 1) by {
            vstd::arithmetic::power2::lemma2_to64();
        }
    }
    while t < n
        invariant
            1 <= t,
            n <= usize::MAX / 2 + 1,
            next_pow2_from(n as nat, t as nat) == next_pow2(n as nat),
            exists|e: nat| pow2(e) == t as nat,
        decreases 2 * n - t,
    {
        proof {
            let e = choose|e: nat| pow2(e) == t as nat;
            lemma_pow2_adds(e, 1);
            assert(pow2(1) == 2) by {
                vstd::arithmetic::power2::lemma2_to64();
            }
            assert(pow2(e + 1) == 2 * t as nat);
        }
        t = t * 2;
    }
    t
}

/// Copies a digest vector.
fn copy_hashes(v: &Vec<Hash32>) -> (r: Vec<Hash32>)
    ensures
        r@ == v@,
{
    let mut out: Vec<Hash32> = Vec::new();
    let mut i: usize = 0;
    while i < v.len()
        invariant
            i <= v@.len(),
            out@ == v@.take(i as int),
        decreases v@.len() - i,
    {
        out.push(v[i]);
        proof {
            assert(v@.take(i + 1 as int) =~= v@.take(i as int).push(v@[i as int]));
        }
        i += 1;
    }
    proof {
        assert(v@.take(v@.len() as int) =~= v@);
    }
    out
}

/// Folding one more (sibling, flag) pair onto a path combines the previous
/// fold result with the new sibling.
proof fn lemma_fold_proof_path_push(cur: Seq<u8>, path: Seq<Seq<u8>>, flags: Seq<u8>, s: Seq<u8>, f: u8)
    requires
        path.len() == flags.len(),
    ensures
        fold_proof_path(cur, path.push(s), flags.push(f)) == combine_step(
            fold_proof_path(cur, path, flags),
            s,
            f,
        ),
    decreases path.len(),
{
    if path.len() == 0 {
        assert(path.push(s)[0] == s);
        assert(flags.push(f)[0] == f);
        assert(path.push(s).drop_first() =~= Seq::<Seq<u8>>::empty());
        assert(flags.push(f).drop_first() =~= Seq::<u8>::empty());
        assert(fold_proof_path(combine_step(cur, s, f), path.push(s).drop_first(),
            flags.push(f).drop_first()) == combine_step(cur, s, f));
        assert(fold_proof_path(cur, path.push(s), flags.push(f)) == combine_step(cur, s, f));
    } else {
        assert(path.push(s).drop_first() =~= path.drop_first().push(s));
        assert(flags.push(f).drop_first() =~= flags.drop_first().push(f));
        lemma_fold_proof_path_push(combine_step(cur, path[0], flags[0]), path.drop_first(),
            flags.drop_first(), s, f);
    }
}

/// One proof-extraction step: pushing a position's sibling digest and parity
/// flag onto a path moves the folded digest one level up, to the position's
/// parent.
proof fn lemma_proof_step(
    leaf: Seq<u8>,
    path: Seq<Seq<u8>>,
    flags: Seq<u8>,
    level: Seq<Seq<u8>>,
    ci: int,
)
    requires
        path.len() == flags.len(),
        0 <= ci < level.len(),
        level.len() % 2 == 0,
        fold_proof_path(leaf, path, flags) == level[ci],
    ensures
        ({
            let sib = if ci % 2 == 0 {
                ci + 1
            } else {
                ci - 1
            };
            let flag: u8 = if ci % 2 == 0 {
                0
            } else {
                1
            };
            fold_proof_path(leaf, path.push(level[sib]), flags.push(flag)) == next_level(
                level,
            )[ci / 2]
        }),
        0 <= ci / 2 < next_level(level).len(),
{
    let sib = if ci % 2 == 0 {
        ci + 1
    } else {
        ci - 1
    };
    let flag: u8 = if ci % 2 == 0 {
        0u8
    } else {
        1u8
    };
    lemma_fold_proof_path_push(leaf, path, flags, level[sib], flag);
    let parent = ci / 2;
    assert(next_level(level)[parent] == hash_pair_of(level[2 * parent], level[2 * parent + 1]));
    if ci % 2 == 0 {
        assert(2 * parent == ci);
    } else {
        assert(2 * parent + 1 == ci);
    }
}

/// In a well-formed level chain, the root by repeated pairing from any level
/// equals the single node of the top level.
proof fn lemma_levels_root_chain(levels: Seq<Seq<Seq<u8>>>, j: int)
    requires
        0 <= j < levels.len(),
        forall|i: int| #![trigger levels[i]]
            0 <= i < levels.len() - 1 ==> levels[i + 1] == next_level(levels[i]),
        forall|i: int| #![trigger levels[i]]
            0 <= i < levels.len() ==> levels[i].len() == pow2((levels.len() - 1 - i) as nat),
    ensures
        levels_root(levels[j]) == levels[levels.len() - 1][0],
    decreases levels.len() - j,
{
    if j == levels.len() - 1 {
        assert(levels[j].len() == pow2(0));
        assert(pow2(0) == 1) by {
            vstd::arithmetic::power2::lemma2_to64();
        }
    } else {
        let k = (levels.len() - 1 - j) as nat;
        assert(levels[j].len() == pow2(k));
        lemma_pow2_strictly_increases(0, k);
        assert(pow2(0) == 1) by {
            vstd::arithmetic::power2::lemma2_to64();
        }
        assert(levels[j].len() > 1);
        assert(levels[j + 1] == next_level(levels[j]));
        lemma_levels_root_chain(levels, j + 1);
    }
}

/// Each stored level of a well-formed non-empty tree is the corresponding
/// row of the spec-level padded tree over its leaf digests.
proof fn lemma_level_is_tree_level(t: &MerkleDeltaTree, j: int)
    requires
        t.wf(),
        t.num_leaves() >= 1,
        0 <= j < t.tree@.len(),
    ensures
        t.level_view(j) == tree_level_of(t.leaf_digests(), j as nat),
    decreases j,
{
    if j == 0 {
    } else {
        lemma_level_is_tree_level(t, j - 1);
        assert(t.level_view(j) == next_level(t.level_view(j - 1)));
    }
}

/// Folding the first `j` sibling/flag pairs of a leaf position's path moves
/// the leaf-level digest to the position's ancestor at level `j` of a
/// well-formed level chain.
#[verifier::rlimit(100)]
#[verifier::spinoff_prover]
proof fn lemma_fold_levels(
    levels: Seq<Seq<Seq<u8>>>,
    index: nat,
    path: Seq<Seq<u8>>,
    flags: Seq<u8>,
    j: nat,
)
    requires
        levels.len() >= 1,
        index < levels[0].len(),
        path.len() == levels.len() - 1,
        flags.len() == levels.len() - 1,
        j <= levels.len() - 1,
        forall|i: int| #![trigger levels[i]]
            0 <= i < levels.len() ==> levels[i].len() == pow2((levels.len() - 1 - i) as nat),
        forall|i: int| #![trigger levels[i]]
            0 <= i < levels.len() - 1 ==> levels[i + 1] == next_level(levels[i]),
        forall|k: int| #![trigger path[k]]
            0 <= k < path.len() ==> path[k] == levels[k][sibling_pos(index, k as nat) as int],
        forall|k: int| #![trigger flags[k]]
            0 <= k < flags.len() ==> flags[k] == (ancestor_pos(index, k as nat) % 2) as u8,
    ensures
        ancestor_pos(index, j) < levels[j as int].len(),
        fold_proof_path(levels[0][index as int], path.take(j as int), flags.take(j as int))
            == levels[j as int][ancestor_pos(index, j) as int],
    decreases j,
{
    if j == 0 {
        assert(path.take(0) =~= Seq::<Seq<u8>>::empty());
        assert(flags.take(0) =~= Seq::<u8>::empty());
    } else {
        lemma_fold_levels(levels, index, path, flags, (j - 1) as nat);
        let ci = ancestor_pos(index, (j - 1) as nat);
        assert(levels[j as int - 1].len() == pow2((levels.len() - 1 - (j - 1)) as nat));
        lemma_pow2_unfold((levels.len() - 1 - (j - 1)) as nat);
        assert(path[j as int - 1] == levels[j as int - 1][sibling_pos(index,
            (j - 1) as nat) as int]);
        lemma_proof_step(levels[0][index as int], path.take(j as int - 1),
            flags.take(j as int - 1), levels[j as int - 1], ci as int);
        assert(path.take(j as int) =~= path.take(j as int - 1).push(path[j as int - 1]));
        assert(flags.take(j as int) =~= flags.take(j as int - 1).push(flags[j as int - 1]));
        assert(ancestor_pos(index, j) == ci / 2);
        assert(levels[j as int] == next_level(levels[j as int - 1]));
    }
}

/// Pairs adjacent nodes of one level in original order and hashes each pair.
fn pair_level(level: &Vec<Hash32>) -> (r: Vec<Hash32>)
    requires
        level@.len() % 2 == 0,
    ensures
        hashes_view(r@) == next_level(hashes_view(level@)),
{
    let cur_len = level.len();
    let mut next: Vec<Hash32> = Vec::new();
    let mut j: usize = 0;
    while j < cur_len
        invariant
            j <= cur_len,
            j % 2 == 0,
            cur_len % 2 == 0,
            cur_len == level@.len(),
            next@.len() == j / 2,
            forall|k: int| #![trigger next@[k]]
                0 <= k < j / 2 ==> next@[k]@ == hash_pair_of(hashes_view(level@)[2 * k],
                    hashes_view(level@)[2 * k + 1]),
        decreases cur_len - j,
    {
        let h = hash_pair(&level[j], &level[j + 1]);
        next.push(h);
        j += 2;
    }
    proof {
        assert(hashes_view(next@) =~= next_level(hashes_view(level@)));
    }
    next
}

/// Merkle tree for delta commitments: stores the unpadded leaf digests,
/// every level of the padded tree, and the root.
pub struct MerkleDeltaTree {
    leaves: Vec<Hash32>,
    tree: Vec<Vec<Hash32>>,
    root: Hash32,
}

impl MerkleDeltaTree {
    /// The digests of the original (unpadded) leaves, in order.
    pub closed spec fn leaf_digests(&self) -> Seq<Seq<u8>> {
        hashes_view(self.leaves@)
    }

    /// How many leaves the tree was built over (not the padded count).
    pub closed spec fn num_leaves(&self) -> nat {
        self.leaves@.len()
    }

    /// The tree's root digest.
    pub closed spec fn spec_root(&self) -> Seq<u8> {
        self.root@
    }

    /// The digests of one stored level.
    pub closed spec fn level_view(&self, i: int) -> Seq<Seq<u8>> {
        hashes_view(self.tree@[i]@)
    }

    /// Number of levels below the root level: the length of every proof path.
    pub closed spec fn height(&self) -> nat {
        (self.tree@.len() - 1) as nat
    }

    /// Structural well-formedness: level 0 is the padded leaf-digest row,
    /// every later level pairs the one below it, the top level is the single
    /// root, and level lengths halve from a power of two.
    pub closed spec fn wf(&self) -> bool {
        if self.leaves@.len() == 0 {
            self.tree@.len() == 0 && self.root@ == empty_tree_root()
        } else {
            &&& 1 <= self.tree@.len()
            &&& self.level_view(0) == pad_to(self.leaf_digests(),
                next_pow2(self.leaves@.len() as nat), padding_digest())
            &&& forall|i: int| #![trigger self.level_view(i)]
                0 <= i < self.tree@.len() ==> self.level_view(i).len() == pow2(
                    (self.tree@.len() - 1 - i) as nat,
                )
            &&& forall|i: int| #![trigger self.level_view(i)]
                0 <= i < self.tree@.len() - 1 ==> self.level_view(i + 1) == next_level(
                    self.level_view(i),
                )
            &&& self.root@ == self.level_view(self.tree@.len() - 1)[0]
        }
    }

    /// Builds a tree over an ordered sequence of opaque byte leaves. Each
    /// leaf is hashed independently; the digest row is padded on the right
    /// with the fixed padding digest up to the next power of two, and levels
    /// are built bottom-up by pairing adjacent nodes in order.
    #[verifier::rlimit(100)]
    pub fn build(deltas: &Vec<Vec<u8>>) -> (r: MerkleDeltaTree)
        requires
            deltas@.len() <= usize::MAX / 2 + 1,
        ensures
            r.wf(),
            r.num_leaves() == deltas@.len(),
            r.leaf_digests() == leaf_digests_of(datas_view(deltas@)),
            r.spec_root() == merkle_root_spec(datas_view(deltas@)),
            r.num_leaves() > 0 ==> pow2(r.height()) == next_pow2(r.num_leaves()),
    {
        if deltas.len() == 0 {
            let sentinel = empty_sentinel_bytes();
            let root = sha256(sentinel.as_slice());
            return MerkleDeltaTree { leaves: Vec::new(), tree: Vec::new(), root };
        }
        let n = deltas.len();

        // Hash each leaf independently.
        let mut leaves: Vec<Hash32> = Vec::new();
        let mut i: usize = 0;
        while i < n
            invariant
                i <= n,
                n == deltas@.len(),
                leaves@.len() == i,
                forall|k: int| #![trigger leaves@[k]]
                    0 <= k < i ==> leaves@[k]@ == sha256_of(deltas@[k]@),
            decreases n - i,
        {
            leaves.push(sha256(deltas[i].as_slice()));
            i += 1;
        }
        proof {
            assert(hashes_view(leaves@) =~= leaf_digests_of(datas_view(deltas@)));
        }

        // Pad to the next power of two with the shared padding digest.
        let target = next_power_of_two(n);
        let ghost e0 = choose|e: nat| pow2(e) == target as nat;
        let pad_bytes = padding_sentinel_bytes();
        let pad = sha256(pad_bytes.as_slice());
        let mut padded = copy_hashes(&leaves);
        while padded.len() < target
            invariant
                n <= padded@.len() <= target,
                hashes_view(padded@).take(n as int) == hashes_view(leaves@),
                forall|k: int| #![trigger padded@[k]]
                    n <= k < padded@.len() ==> padded@[k]@ == padding_digest(),
                leaves@.len() == n,
                pad@ == padding_digest(),
            decreases target - padded@.len(),
        {
            padded.push(pad);
            proof {
                assert(hashes_view(padded@).take(n as int) =~= hashes_view(leaves@));
            }
        }
        let ghost padded_seq = pad_to(hashes_view(leaves@), next_pow2(n as nat),
            padding_digest());
        proof {
            assert(hashes_view(padded@) =~= padded_seq);
        }

        // Build levels bottom-up until a single node remains.
        let mut tree: Vec<Vec<Hash32>> = Vec::new();
        tree.push(padded);
        let mut lvl: usize = 0;
        proof {
            assert(self_level(tree@, 0) =~= padded_seq);
        }
        while tree[lvl].len() > 1
            invariant
                tree@.len() == lvl + 1,
                lvl <= e0,
                pow2(e0) == target as nat,
                self_level(tree@, 0) == padded_seq,
                padded_seq.len() == target as nat,
                forall|i: int| #![trigger self_level(tree@, i)]
                    0 <= i <= lvl ==> self_level(tree@, i).len() == pow2((e0 - i) as nat),
                forall|i: int| #![trigger self_level(tree@, i)]
                    0 <= i < lvl ==> self_level(tree@, i + 1) == next_level(self_level(tree@, i)),
            decreases e0 - lvl,
        {
            proof {
                assert(self_level(tree@, lvl as int).len() == pow2((e0 - lvl) as nat));
                if e0 == lvl {
                    assert(pow2(0) == 1) by {
                        vstd::arithmetic::power2::lemma2_to64();
                    }
                    assert(false);
                }
                lemma_pow2_unfold((e0 - lvl) as nat);
            }
            let next = pair_level(&tree[lvl]);
            let ghost next_view = hashes_view(next@);
            let ghost old_tree = tree@;
            let ghost old_lvl = lvl as int;
            tree.push(next);
            lvl = tree.len() - 1;
            proof {
                assert(lvl == old_tree.len());
                assert(next_view == next_level(self_level(old_tree, old_lvl)));
                assert(self_level(tree@, lvl as int) == next_view);
                assert forall|i: int| 0 <= i <= lvl implies #[trigger] self_level(tree@, i).len()
                    == pow2((e0 - i) as nat) by {
                    if i < lvl {
                        assert(tree@[i] == old_tree[i]);
                        assert(self_level(tree@, i) == self_level(old_tree, i));
                    } else {
                        assert(self_level(tree@, i) == next_view);
                        assert(next_view.len() == self_level(old_tree, old_lvl).len() / 2);
                        lemma_pow2_unfold((e0 - old_lvl) as nat);
                    }
                }
                assert forall|i: int| 0 <= i < lvl implies #[trigger] self_level(tree@, i + 1)
                    == next_level(self_level(tree@, i)) by {
                    assert(tree@[i] == old_tree[i]);
                    assert(self_level(tree@, i) == self_level(old_tree, i));
                    if i + 1 < lvl {
                        assert(tree@[i + 1] == old_tree[i + 1]);
                        assert(self_level(tree@, i + 1) == self_level(old_tree, i + 1));
                    }
                }
                assert(tree@[0] == old_tree[0]);
                assert(self_level(tree@, 0) == self_level(old_tree, 0));
            }
        }
        proof {
            assert(self_level(tree@, lvl as int).len() == pow2((e0 - lvl) as nat));
            if lvl < e0 {
                lemma_pow2_strictly_increases(0, (e0 - lvl) as nat);
                assert(pow2(0) == 1) by {
                    vstd::arithmetic::power2::lemma2_to64();
                }
                assert(false);
            }
            assert(pow2(0) == 1) by {
                vstd::arithmetic::power2::lemma2_to64();
            }
        }
        let root = tree[lvl][0];
        let ghost gtree = tree@;
        let ghost gleaves = leaves@;
        let r = MerkleDeltaTree { leaves, tree, root };
        proof {
            assert(r.tree@ == gtree);
            assert(r.leaves@ == gleaves);
            assert(lvl == e0);
            assert(r.root@ == self_level(gtree, lvl as int)[0]);
            assert forall|i: int| 0 <= i < r.tree@.len() implies #[trigger] r.level_view(i).len()
                == pow2((r.tree@.len() - 1 - i) as nat) by {
                assert(r.level_view(i) == self_level(gtree, i));
            }
            assert forall|i: int| 0 <= i < r.tree@.len() - 1 implies #[trigger] r.level_view(
                i + 1,
            ) == next_level(r.level_view(i)) by {
                assert(r.level_view(i) == self_level(gtree, i));
                assert(r.level_view(i + 1) == self_level(gtree, i + 1));
            }
            assert(r.level_view(0) == self_level(gtree, 0));
            assert(r.leaf_digests() == hashes_view(gleaves));
            assert(r.level_view(0) == pad_to(r.leaf_digests(),
                next_pow2(r.leaves@.len() as nat), padding_digest()));
            assert(r.root@ == r.level_view(r.tree@.len() - 1)[0]);
            assert(r.wf());
            let levels = Seq::new(r.tree@.len() as nat, |i: int| r.level_view(i));
            assert forall|i: int| 0 <= i < levels.len() - 1 implies #[trigger] levels[i + 1]
                == next_level(levels[i]) by {
                assert(levels[i] == r.level_view(i));
                assert(levels[i + 1] == r.level_view(i + 1));
            }
            assert forall|i: int| 0 <= i < levels.len() implies #[trigger] levels[i].len()
                == pow2((levels.len() - 1 - i) as nat) by {
                assert(levels[i] == r.level_view(i));
            }
            lemma_levels_root_chain(levels, 0);
            assert(levels[0] == padded_seq);
            assert(levels[levels.len() - 1] == r.level_view(r.tree@.len() - 1));
            assert(r.spec_root() == levels_root(padded_seq));
            assert(leaf_digests_of(datas_view(deltas@)) == hashes_view(gleaves));
            assert(padded_seq == pad_to(leaf_digests_of(datas_view(deltas@)),
                next_pow2(deltas@.len()), padding_digest()));
            assert(datas_view(deltas@).len() == deltas@.len());
            assert(pow2(r.height()) == next_pow2(r.num_leaves()));
        }
        r
    }

    /// The root hash the batch commits to.
    pub fn root(&self) -> (r: Hash32)
        ensures
            r@ == self.spec_root(),
    {
        self.root
    }

    /// Generates an inclusion proof for a leaf index.
    ///
    /// Fails with a not-found condition exactly when the index is at or past
    /// the original (unpadded) leaf count. A generated proof always verifies
    /// against this tree's own root: its folded path equals `spec_root`.
    #[verifier::rlimit(100)]
    #[verifier::spinoff_prover]
    #[verifier::loop_isolation(false)]
    pub fn generate_proof(&self, index: usize) -> (r: Result<MerkleProof, CantorError>)
        requires
            self.wf(),
        ensures
            r is Ok <==> index < self.num_leaves(),
            r is Err ==> r->Err_0 is TransactionNotFound
                && r->Err_0->TransactionNotFound_0@ == decimal_digits(index as nat),
            r is Ok ==> r->Ok_0.leaf_hash@ == self.leaf_digests()[index as int],
            r is Ok ==> r->Ok_0.wf() && r->Ok_0.path@.len() == self.height()
                && r->Ok_0.indices@.len() == self.height(),
            r is Ok ==> fold_proof_path(r->Ok_0.leaf_hash@, hashes_view(r->Ok_0.path@),
                r->Ok_0.indices@) == self.spec_root(),
            r is Ok ==> (forall|j: int| #![trigger r->Ok_0.path@[j]]
                0 <= j < r->Ok_0.path@.len() ==> r->Ok_0.path@[j]@ == tree_level_of(
                    self.leaf_digests(), j as nat)[sibling_pos(index as nat, j as nat) as int]),
            r is Ok ==> (forall|j: int| #![trigger r->Ok_0.indices@[j]]
                0 <= j < r->Ok_0.indices@.len() ==> r->Ok_0.indices@[j] == (ancestor_pos(
                    index as nat, j as nat) % 2) as u8),
    {
        if index >= self.leaves.len() {
            return Err(CantorError::TransactionNotFound(decimal_string(index)));
        }
        let (path, indices) = self.extract_path(index);
        let leaf_hash = self.tree[0][index];
        proof {
            assert(self.level_view(0)[index as int] == self.leaf_digests()[index as int]);
            assert forall|j: int| 0 <= j < path@.len() implies #[trigger] path@[j]@
                == tree_level_of(self.leaf_digests(), j as nat)[sibling_pos(index as nat,
                    j as nat) as int] by {
                lemma_level_is_tree_level(self, j);
            }
            let levels = Seq::new(self.tree@.len() as nat, |i: int| self.level_view(i));
            assert forall|i: int| 0 <= i < levels.len() implies #[trigger] levels[i].len()
                == pow2((levels.len() - 1 - i) as nat) by {
                assert(levels[i] == self.level_view(i));
            }
            assert forall|i: int| 0 <= i < levels.len() - 1 implies #[trigger] levels[i + 1]
                == next_level(levels[i]) by {
                assert(levels[i] == self.level_view(i));
                assert(levels[i + 1] == self.level_view(i + 1));
            }
            assert forall|k: int| 0 <= k < hashes_view(path@).len() implies #[trigger]
                hashes_view(path@)[k] == levels[k][sibling_pos(index as nat,
                    k as nat) as int] by {
                assert(hashes_view(path@)[k] == path@[k]@);
                assert(levels[k] == self.level_view(k));
            }
            assert(levels[0] == self.level_view(0));
            assert(self.level_view(0).len() == pow2(self.height()));
            assert(index < levels[0].len());
            lemma_fold_levels(levels, index as nat, hashes_view(path@), indices@,
                self.height());
            assert(hashes_view(path@).take(self.height() as int) =~= hashes_view(path@));
            assert(indices@.take(self.height() as int) =~= indices@);
            lemma_ancestor_is_div(index as nat, self.height());
            lemma_fundamental_div_mod_converse(index as int, pow2(self.height()) as int, 0,
                index as int);
            assert(ancestor_pos(index as nat, self.height()) == 0);
            assert(levels[self.height() as int] == self.level_view(self.tree@.len() - 1));
            assert(fold_proof_path(leaf_hash@, hashes_view(path@), indices@)
                == self.spec_root());
        }
        Ok(MerkleProof { leaf_hash, path, indices })
    }

    /// Walks the stored levels bottom-up, collecting the sibling digest and
    /// the running node's parity flag at each level below the root.
    #[verifier::rlimit(100)]
    #[verifier::spinoff_prover]
    #[verifier::loop_isolation(false)]
    fn extract_path(&self, index: usize) -> (r: (Vec<Hash32>, Vec<u8>))
        requires
            self.wf(),
            index < self.num_leaves(),
        ensures
            r.0@.len() == self.height(),
            r.1@.len() == self.height(),
            forall|j: int| #![trigger r.0@[j]]
                0 <= j < r.0@.len() ==> r.0@[j]@ == self.level_view(j)[sibling_pos(
                    index as nat, j as nat) as int],
            forall|j: int| #![trigger r.1@[j]]
                0 <= j < r.1@.len() ==> r.1@[j] == (ancestor_pos(index as nat,
                    j as nat) % 2) as u8,
    {
        let height = self.tree.len() - 1;
        let mut path: Vec<Hash32> = Vec::new();
        let mut indices: Vec<u8> = Vec::new();
        let mut current_index: usize = index;
        let mut lvl: usize = 0;
        while lvl < height
            invariant
                self.wf(),
                self.num_leaves() >= 1,
                index < self.num_leaves(),
                height == self.tree@.len() - 1,
                lvl <= height,
                path@.len() == lvl,
                indices@.len() == lvl,
                current_index < self.level_view(lvl as int).len(),
                current_index as nat == ancestor_pos(index as nat, lvl as nat),
                forall|j: int| #![trigger path@[j]]
                    0 <= j < lvl ==> path@[j]@ == self.level_view(j)[sibling_pos(
                        index as nat, j as nat) as int],
                forall|j: int| #![trigger indices@[j]]
                    0 <= j < lvl ==> indices@[j] == (ancestor_pos(index as nat,
                        j as nat) % 2) as u8,
            decreases height - lvl,
        {
            proof {
                assert(self.level_view(lvl as int).len() == pow2(
                    (self.tree@.len() - 1 - lvl) as nat,
                ));
                lemma_pow2_unfold((self.tree@.len() - 1 - lvl) as nat);
            }
            let sibling_index = if current_index % 2 == 0 {
                current_index + 1
            } else {
                current_index - 1
            };
            let flag: u8 = if current_index % 2 == 0 {
                0
            } else {
                1
            };
            path.push(self.tree[lvl][sibling_index]);
            indices.push(flag);
            proof {
                assert(sibling_index as nat == sibling_pos(index as nat, lvl as nat));
                assert(path@[lvl as int]@ == self.level_view(lvl as int)[sibling_pos(
                    index as nat, lvl as nat) as int]);
                assert(ancestor_pos(index as nat, (lvl + 1) as nat) == current_index as nat
                    / 2);
            }
            current_index = current_index / 2;
            lvl += 1;
        }
        (path, indices)
    }

    /// Verifies a proof against a root by refolding its sibling path.
    pub fn verify_proof(pf: &MerkleProof, root: &Hash32) -> (r: bool)
        ensures
            r == (fold_proof_path(pf.leaf_hash@, hashes_view(pf.path@), pf.indices@) == root@),
    {
        pf.verify(root)
    }
}

/// The digests of one level of a stored tree.
pub open spec fn self_level(tree: Seq<Vec<Hash32>>, i: int) -> Seq<Seq<u8>> {
    hashes_view(tree[i]@)
}

} // verus!
