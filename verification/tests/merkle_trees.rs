use cantor::{CantorError, Hash32, IncrementalMerkleTree, MerkleDeltaTree};
use sha2::{Digest, Sha256};

fn sha(data: &[u8]) -> [u8; 32] {
    Sha256::digest(data).into()
}

fn sha_pair(left: &[u8; 32], right: &[u8; 32]) -> [u8; 32] {
    let mut buf = Vec::new();
    buf.extend_from_slice(left);
    buf.extend_from_slice(right);
    sha(&buf)
}

#[test]
fn test_merkle_tree_build() {
    let deltas: Vec<Vec<u8>> = vec![b"delta1".to_vec(), b"delta2".to_vec(), b"delta3".to_vec()];
    let tree = MerkleDeltaTree::build(&deltas);
    assert_ne!(tree.root(), Hash32::zero());
}

#[test]
fn test_merkle_proof_verification() {
    let deltas: Vec<Vec<u8>> = vec![
        b"delta1".to_vec(),
        b"delta2".to_vec(),
        b"delta3".to_vec(),
        b"delta4".to_vec(),
    ];
    let tree = MerkleDeltaTree::build(&deltas);

    for i in 0..deltas.len() {
        let proof = tree.generate_proof(i).unwrap();
        assert!(MerkleDeltaTree::verify_proof(&proof, &tree.root()));
    }
}

#[test]
fn test_incremental_tree() {
    let mut tree = IncrementalMerkleTree::new(10);
    let leaf = Hash32::from_slice(&[1u8; 32]).unwrap();
    let root = tree.insert(leaf);
    assert_ne!(root, Hash32::zero());
}

#[test]
fn empty_tree_has_fixed_nonzero_root_and_no_proofs() {
    let tree = MerkleDeltaTree::build(&Vec::new());
    assert_eq!(*tree.root().as_bytes(), sha(b"empty"));
    assert_ne!(tree.root(), Hash32::zero());
    assert!(matches!(
        tree.generate_proof(0),
        Err(CantorError::TransactionNotFound(_))
    ));
}

#[test]
fn proof_generation_fails_past_the_leaf_count() {
    let deltas: Vec<Vec<u8>> = vec![b"a".to_vec(), b"b".to_vec(), b"c".to_vec()];
    let tree = MerkleDeltaTree::build(&deltas);
    // The tree is padded to four slots internally, but index 3 is still
    // outside the original leaves.
    match tree.generate_proof(3) {
        Err(CantorError::TransactionNotFound(s)) => assert_eq!(s, "3"),
        other => panic!("expected a not-found condition, got {:?}", other.map(|_| ())),
    }
    assert!(tree.generate_proof(100).is_err());
    assert!(tree.generate_proof(2).is_ok());
}

#[test]
fn single_leaf_root_is_the_leaf_digest() {
    let deltas: Vec<Vec<u8>> = vec![b"x".to_vec()];
    let tree = MerkleDeltaTree::build(&deltas);
    assert_eq!(*tree.root().as_bytes(), sha(b"x"));
}

#[test]
fn two_leaf_root_pairs_the_leaf_digests() {
    let deltas: Vec<Vec<u8>> = vec![b"l".to_vec(), b"r".to_vec()];
    let tree = MerkleDeltaTree::build(&deltas);
    assert_eq!(*tree.root().as_bytes(), sha_pair(&sha(b"l"), &sha(b"r")));
}

#[test]
fn odd_leaf_count_pads_with_the_padding_digest() {
    let deltas: Vec<Vec<u8>> = vec![b"a".to_vec(), b"b".to_vec(), b"c".to_vec()];
    let tree = MerkleDeltaTree::build(&deltas);
    let left = sha_pair(&sha(b"a"), &sha(b"b"));
    let right = sha_pair(&sha(b"c"), &sha(b"padding"));
    assert_eq!(*tree.root().as_bytes(), sha_pair(&left, &right));
}

#[test]
fn changing_one_leaf_byte_changes_the_root() {
    let deltas: Vec<Vec<u8>> = vec![b"delta1".to_vec(), b"delta2".to_vec()];
    let tree = MerkleDeltaTree::build(&deltas);
    let mutated: Vec<Vec<u8>> = vec![b"delta1".to_vec(), b"delta3".to_vec()];
    let tree2 = MerkleDeltaTree::build(&mutated);
    assert_ne!(tree.root(), tree2.root());
}

#[test]
fn end_to_end_four_leaves() {
    let deltas: Vec<Vec<u8>> = (0..4).map(|i| format!("delta_{}", i).into_bytes()).collect();
    let tree = MerkleDeltaTree::build(&deltas);
    assert_ne!(tree.root(), Hash32::zero());

    let proof = tree.generate_proof(2).unwrap();
    assert_eq!(proof.path.len(), 2);
    assert_eq!(proof.indices.len(), 2);
    assert!(MerkleDeltaTree::verify_proof(&proof, &tree.root()));

    let other: Vec<Vec<u8>> = (0..5).map(|i| format!("delta_{}", i).into_bytes()).collect();
    let other_tree = MerkleDeltaTree::build(&other);
    assert!(!MerkleDeltaTree::verify_proof(&proof, &other_tree.root()));
}

#[test]
fn incremental_insert_returns_the_zero_padded_root() {
    // Depth 2: the root covers four leaf slots; empty slots hold the digest
    // chain built from the shared padding sentinel.
    let mut tree = IncrementalMerkleTree::new(2);
    let a = Hash32::from_slice(&[7u8; 32]).unwrap();
    let z0 = sha(b"padding");
    let z1 = sha_pair(&z0, &z0);
    let expected = sha_pair(&sha_pair(a.as_bytes(), &z0), &z1);
    let got = tree.insert(a);
    assert_eq!(*got.as_bytes(), expected);
}

#[test]
fn incremental_insert_chain_matches_manual_hashing() {
    let mut tree = IncrementalMerkleTree::new(2);
    let a = Hash32::from_slice(&[1u8; 32]).unwrap();
    let b = Hash32::from_slice(&[2u8; 32]).unwrap();
    let c = Hash32::from_slice(&[3u8; 32]).unwrap();
    let z0 = sha(b"padding");
    let z1 = sha_pair(&z0, &z0);
    tree.insert(a);
    let after_two = tree.insert(b);
    assert_eq!(
        *after_two.as_bytes(),
        sha_pair(&sha_pair(a.as_bytes(), b.as_bytes()), &z1)
    );
    let after_three = tree.insert(c);
    assert_eq!(
        *after_three.as_bytes(),
        sha_pair(
            &sha_pair(a.as_bytes(), b.as_bytes()),
            &sha_pair(c.as_bytes(), &z0)
        )
    );
}

#[test]
fn incremental_root_folds_the_stored_frontier() {
    // The root accessor reconstructs from the retained left-subtree digests:
    // level 0's entry, then each level's entry hashed in front.
    let mut tree = IncrementalMerkleTree::new(2);
    assert_eq!(
        *tree.root().as_bytes(),
        sha_pair(&sha(b"padding"), &sha(b"padding"))
    );
    let a = Hash32::from_slice(&[9u8; 32]).unwrap();
    tree.insert(a);
    let z0 = sha(b"padding");
    let expected = sha_pair(&sha_pair(a.as_bytes(), &z0), a.as_bytes());
    assert_eq!(*tree.root().as_bytes(), expected);
}

#[test]
fn incremental_chain_matches_batch_root() {
    // The pinned shared padding convention: inserting the batch tree's leaf
    // digests one at a time into a tree of the batch's padded width makes
    // the last insertion's return equal the batch root — including when the
    // batch needs padding slots.
    for n in [3usize, 4] {
        let deltas: Vec<Vec<u8>> = (0..n).map(|i| format!("delta{}", i).into_bytes()).collect();
        let batch = MerkleDeltaTree::build(&deltas);
        let mut incremental = IncrementalMerkleTree::new(2);
        let mut last = Hash32::zero();
        for d in &deltas {
            last = incremental.insert(Hash32::from_slice(&sha(d)).unwrap());
        }
        assert_eq!(last, batch.root());
    }
}

#[test]
fn single_leaf_proof_has_empty_path() {
    let deltas: Vec<Vec<u8>> = vec![b"only".to_vec()];
    let tree = MerkleDeltaTree::build(&deltas);
    let proof = tree.generate_proof(0).unwrap();
    assert!(proof.path.is_empty());
    assert!(proof.indices.is_empty());
    assert_eq!(proof.leaf_hash, tree.root());
    assert!(MerkleDeltaTree::verify_proof(&proof, &tree.root()));
}

#[test]
fn repeated_generation_returns_equal_proofs() {
    let deltas: Vec<Vec<u8>> = vec![b"a".to_vec(), b"b".to_vec(), b"c".to_vec()];
    let tree = MerkleDeltaTree::build(&deltas);
    for i in 0..deltas.len() {
        let p1 = tree.generate_proof(i).unwrap();
        let p2 = tree.generate_proof(i).unwrap();
        assert_eq!(p1.leaf_hash, p2.leaf_hash);
        assert_eq!(p1.path, p2.path);
        assert_eq!(p1.indices, p2.indices);
    }
}
