//! Value objects of the commitment core: state vectors, state deltas, Merkle
//! inclusion proofs, verification bundles and batch commit artifacts.
//!
//! State elements are carried as raw 32-bit words (the IEEE-754 bit patterns
//! of the original single-precision values); all hashing is over their
//! little-endian byte concatenation, so digests agree byte-for-byte with
//! hashes of the corresponding float vectors.

use vstd::prelude::*;
use crate::digest::{Hash32, sha256, sha256_of, hash_pair, hash_pair_of};
use crate::words::{le_bytes_of_words, words_to_le_bytes};

verus! {

/// The digest of a state: SHA-256 over the little-endian byte concatenation
/// of its elements in index order.
pub open spec fn state_hash_of(ws: Seq<u32>) -> Seq<u8> {
    sha256_of(le_bytes_of_words(ws))
}

/// A full state snapshot: an ordered sequence of 32-bit elements and its
/// dimension, kept equal to the element count.
#[derive(Clone, Debug)]
pub struct StateVector {
    pub data: Vec<u32>,
    pub dimension: usize,
}

impl StateVector {
    /// Dimension always records the element count.
    pub open spec fn wf(&self) -> bool {
        self.dimension == self.data@.len()
    }

    pub fn new(data: Vec<u32>) -> (r: StateVector)
        ensures
            r.data@ == data@,
            r.wf(),
    {
        let dimension = data.len();
        StateVector { data, dimension }
    }

    /// The all-zero state of a given dimension.
    pub fn zeros(dimension: usize) -> (r: StateVector)
        ensures
            r.data@ == Seq::new(dimension as nat, |i: int| 0u32),
            r.wf(),
    {
        let data = vec![0u32; dimension];
        proof {
            assert(data@ =~= Seq::new(dimension as nat, |i: int| 0u32));
        }
        StateVector { data, dimension }
    }

    /// The digest binding this snapshot: SHA-256 over the little-endian byte
    /// concatenation of all elements in order.
    pub fn compute_hash(&self) -> (r: Hash32)
        ensures
            r@ == state_hash_of(self.data@),
    {
        let bytes = words_to_le_bytes(&self.data);
        sha256(bytes.as_slice())
    }
}

/// A state transition unit: the transaction it belongs to, the digests of the
/// predicted and actual states, and the encoded delta. The confidence score
/// is an advisory 32-bit value (the bit pattern of the producer's score) and
/// is never verified.
#[derive(Clone, Debug)]
pub struct StateDelta {
    pub tx_hash: Hash32,
    pub predicted_root: Hash32,
    pub actual_root: Hash32,
    pub delta_bytes: Vec<u8>,
    pub confidence: u32,
}

/// One combination step of proof verification: the side flag selects the
/// byte order in which the running digest and the sibling are concatenated
/// before hashing. Flag 0 places the running digest first (it is the left
/// child at this level); any other flag places the sibling first.
pub open spec fn combine_step(cur: Seq<u8>, sibling: Seq<u8>, flag: u8) -> Seq<u8> {
    if flag == 0 {
        hash_pair_of(cur, sibling)
    } else {
        hash_pair_of(sibling, cur)
    }
}

/// The digest reached by folding a sibling path over a leaf digest, pairing
/// path entries with side flags in order and stopping at the shorter of the
/// two lists.
pub open spec fn fold_proof_path(cur: Seq<u8>, path: Seq<Seq<u8>>, flags: Seq<u8>) -> Seq<u8>
    decreases path.len(),
{
    if path.len() == 0 || flags.len() == 0 {
        cur
    } else {
        fold_proof_path(combine_step(cur, path[0], flags[0]), path.drop_first(),
            flags.drop_first())
    }
}

/// The byte-sequence views of a sequence of digests.
pub open spec fn hashes_view(s: Seq<Hash32>) -> Seq<Seq<u8>> {
    s.map_values(|h: Hash32| h@)
}

/// Inclusion evidence for one leaf: the leaf digest, the root-ward sibling
/// path and one side flag per level.
#[derive(Clone, Debug)]
pub struct MerkleProof {
    pub leaf_hash: Hash32,
    pub path: Vec<Hash32>,
    pub indices: Vec<u8>,
}

impl MerkleProof {
    /// One side flag per path entry.
    pub open spec fn wf(&self) -> bool {
        self.path@.len() == self.indices@.len()
    }

    /// Recomputes a root from the leaf digest along the sibling path and
    /// reports whether it equals the expected root.
    pub fn verify(&self, root: &Hash32) -> (r: bool)
        ensures
            r == (fold_proof_path(self.leaf_hash@, hashes_view(self.path@), self.indices@)
                == root@),
    {
        let ghost full = fold_proof_path(self.leaf_hash@, hashes_view(self.path@),
            self.indices@);
        let mut current = self.leaf_hash;
        let mut i: usize = 0;
        proof {
            assert(hashes_view(self.path@).skip(0) =~= hashes_view(self.path@));
            assert(self.indices@.skip(0) =~= self.indices@);
        }
        while i < self.path.len() && i < self.indices.len()
            invariant
                i <= self.path@.len(),
                i <= self.indices@.len(),
                fold_proof_path(current@, hashes_view(self.path@).skip(i as int),
                    self.indices@.skip(i as int)) == full,
            decreases self.path@.len() - i,
        {
            let sibling = self.path[i];
            let flag = self.indices[i];
            let next = if flag == 0 {
                hash_pair(&current, &sibling)
            } else {
                hash_pair(&sibling, &current)
            };
            proof {
                let p = hashes_view(self.path@).skip(i as int);
                let f = self.indices@.skip(i as int);
                assert(p[0] == self.path@[i as int]@);
                assert(f[0] == self.indices@[i as int]);
                assert(p.drop_first() =~= hashes_view(self.path@).skip(i + 1 as int));
                assert(f.drop_first() =~= self.indices@.skip(i + 1 as int));
                assert(fold_proof_path(next@, p.drop_first(), f.drop_first())
                    == fold_proof_path(current@, p, f));
            }
            current = next;
            i += 1;
        }
        proof {
            assert(fold_proof_path(current@, hashes_view(self.path@).skip(i as int),
                self.indices@.skip(i as int)) == current@);
        }
        current == *root
    }
}

/// The bundle that validates one transition: transaction digest, claimed
/// predicted-state digest, the delta itself, its inclusion proof, and the
/// version tag of the model that produced it. It carries no authority of its
/// own: it must be checked against a root and a caller-supplied state.
#[derive(Clone, Debug)]
pub struct VerificationProof {
    pub tx_hash: Hash32,
    pub predicted_state: Hash32,
    pub delta: StateDelta,
    pub merkle_proof: MerkleProof,
    pub model_version: String,
}

/// One batch's commit artifact: sizes, the root the batch commits to, and the
/// per-transaction deltas and proofs in matching order.
#[derive(Clone, Debug)]
pub struct CompressionResult {
    pub block_number: u64,
    pub original_size: usize,
    pub compressed_size: usize,
    pub delta_tree_root: Hash32,
    pub deltas: Vec<StateDelta>,
    pub proofs: Vec<VerificationProof>,
}

impl CompressionResult {
    /// Deltas and proofs travel in matching order: one proof per delta, the
    /// same index naming the same transaction.
    pub open spec fn wf(&self) -> bool {
        self.deltas@.len() == self.proofs@.len()
    }
}

} // verus!
