use cantor::{
    CompressionMethod, CompressionResult, DeltaEncoder, Hash32, MerkleDeltaTree, ProofCheck,
    StateDelta, StateVector, StateVerifier, VerificationProof, VerificationStatus,
};

fn bits(values: &[f32]) -> Vec<u32> {
    values.iter().map(|v| v.to_bits()).collect()
}

fn reconstruct(predicted: &[f32], decoded_words: &[u32]) -> StateVector {
    let sum: Vec<u32> = predicted
        .iter()
        .zip(decoded_words.iter())
        .map(|(p, d)| (p + f32::from_bits(*d)).to_bits())
        .collect();
    StateVector::new(sum)
}

/// Builds one bundle over a single-delta batch, returning the bundle, the
/// tree root, and the predicted state.
fn make_bundle(version: &str, predicted: &[f32], delta: &[f32]) -> (VerificationProof, Hash32, StateVector) {
    let encoder = DeltaEncoder::new(CompressionMethod::Lz4);
    let delta_bytes = encoder.encode(&bits(delta)).unwrap();

    let tree = MerkleDeltaTree::build(&vec![delta_bytes.clone()]);
    let merkle_proof = tree.generate_proof(0).unwrap();

    let predicted_vec = StateVector::new(bits(predicted));
    let actual: Vec<f32> = predicted.iter().zip(delta.iter()).map(|(p, d)| p + d).collect();
    let actual_vec = StateVector::new(bits(&actual));

    let tx_hash = Hash32::from_slice(&[0x42u8; 32]).unwrap();
    let bundle = VerificationProof {
        tx_hash,
        predicted_state: predicted_vec.compute_hash(),
        delta: StateDelta {
            tx_hash,
            predicted_root: predicted_vec.compute_hash(),
            actual_root: actual_vec.compute_hash(),
            delta_bytes,
            confidence: 0.9f32.to_bits(),
        },
        merkle_proof,
        model_version: version.to_string(),
    };
    (bundle, tree.root(), predicted_vec)
}

#[test]
fn test_verifier_creation() {
    let verifier = StateVerifier::new("v1.0.0");
    assert_eq!(verifier.model_version, "v1.0.0");
}

#[test]
fn full_pipeline_accepts_a_correct_bundle() {
    let predicted = [1.0f32, 2.0, -3.5];
    let delta = [0.5f32, -0.25, 1.0];
    let (bundle, root, predicted_vec) = make_bundle("v1", &predicted, &delta);
    let verifier = StateVerifier::new("v1");
    match verifier.verify_proof(&bundle, &predicted_vec, &root) {
        ProofCheck::Reconstruct(decoded) => {
            let reconstructed = reconstruct(&predicted, &decoded);
            let outcome = verifier.verify_reconstruction(&bundle, &reconstructed);
            assert_eq!(outcome.status, VerificationStatus::Valid);
            assert_eq!(outcome.tx_hash, Some(bundle.tx_hash));
        }
        ProofCheck::Rejected(r) => panic!("unexpected rejection: {:?}", r.status),
    }
}

#[test]
fn model_mismatch_is_reported_first() {
    // The bundle would pass every later stage, but the version check comes
    // first and wins.
    let predicted = [1.0f32, 2.0];
    let delta = [0.5f32, 0.5];
    let (bundle, root, predicted_vec) = make_bundle("v2", &predicted, &delta);
    let verifier = StateVerifier::new("v1");
    match verifier.verify_proof(&bundle, &predicted_vec, &root) {
        ProofCheck::Rejected(r) => {
            assert_eq!(r.status, VerificationStatus::ModelMismatch);
            assert!(r.tx_hash.is_none());
        }
        ProofCheck::Reconstruct(_) => panic!("bundle should be rejected"),
    }
}

#[test]
fn wrong_root_is_invalid_merkle() {
    let (bundle, _root, predicted_vec) = make_bundle("v1", &[1.0f32], &[0.5f32]);
    let verifier = StateVerifier::new("v1");
    let wrong_root = Hash32::from_slice(&[9u8; 32]).unwrap();
    match verifier.verify_proof(&bundle, &predicted_vec, &wrong_root) {
        ProofCheck::Rejected(r) => assert_eq!(r.status, VerificationStatus::InvalidMerkle),
        ProofCheck::Reconstruct(_) => panic!("bundle should be rejected"),
    }
}

#[test]
fn wrong_predicted_state_is_invalid_prediction() {
    let (bundle, root, _) = make_bundle("v1", &[1.0f32, 2.0], &[0.5f32, 0.5]);
    let verifier = StateVerifier::new("v1");
    let other_state = StateVector::new(bits(&[9.0f32, 9.0]));
    match verifier.verify_proof(&bundle, &other_state, &root) {
        ProofCheck::Rejected(r) => assert_eq!(r.status, VerificationStatus::InvalidPrediction),
        ProofCheck::Reconstruct(_) => panic!("bundle should be rejected"),
    }
}

#[test]
fn corrupt_delta_bytes_are_invalid_delta() {
    let (mut bundle, _root, predicted_vec) = make_bundle("v1", &[1.0f32], &[0.5f32]);
    bundle.delta.delta_bytes = vec![0xff, 0x00, 0x01];
    // Rebuild the tree over the corrupt bytes so the Merkle stage passes and
    // the decode stage is the one that fails.
    let tree = MerkleDeltaTree::build(&vec![bundle.delta.delta_bytes.clone()]);
    bundle.merkle_proof = tree.generate_proof(0).unwrap();
    let verifier = StateVerifier::new("v1");
    match verifier.verify_proof(&bundle, &predicted_vec, &tree.root()) {
        ProofCheck::Rejected(r) => assert_eq!(r.status, VerificationStatus::InvalidDelta),
        ProofCheck::Reconstruct(_) => panic!("bundle should be rejected"),
    }
}

#[test]
fn dimension_mismatch_is_invalid_delta() {
    // The delta decodes to three elements against a two-element state; every
    // earlier stage passes.
    let (bundle, root, predicted_vec) = make_bundle("v1", &[1.0f32, 2.0], &[0.5f32, 0.5, 0.5]);
    let verifier = StateVerifier::new("v1");
    match verifier.verify_proof(&bundle, &predicted_vec, &root) {
        ProofCheck::Rejected(r) => assert_eq!(r.status, VerificationStatus::InvalidDelta),
        ProofCheck::Reconstruct(_) => panic!("bundle should be rejected"),
    }
}

#[test]
fn wrong_actual_root_fails_reconstruction() {
    let predicted = [1.0f32, 2.0];
    let delta = [0.5f32, 0.5];
    let (mut bundle, root, predicted_vec) = make_bundle("v1", &predicted, &delta);
    bundle.delta.actual_root = Hash32::from_slice(&[3u8; 32]).unwrap();
    let verifier = StateVerifier::new("v1");
    match verifier.verify_proof(&bundle, &predicted_vec, &root) {
        ProofCheck::Reconstruct(decoded) => {
            let reconstructed = reconstruct(&predicted, &decoded);
            let outcome = verifier.verify_reconstruction(&bundle, &reconstructed);
            assert_eq!(outcome.status, VerificationStatus::InvalidDelta);
            assert!(outcome.tx_hash.is_none());
        }
        ProofCheck::Rejected(r) => panic!("unexpected rejection: {:?}", r.status),
    }
}

#[test]
fn batch_verification_yields_one_outcome_per_pair() {
    let predicted = [1.0f32, 2.0];
    let delta = [0.5f32, 0.5];
    let (good, root, predicted_vec) = make_bundle("v1", &predicted, &delta);
    let mut bad = good.clone();
    bad.model_version = "v9".to_string();

    let result = CompressionResult {
        block_number: 7,
        original_size: 16,
        compressed_size: 8,
        delta_tree_root: root,
        deltas: vec![good.delta.clone(), bad.delta.clone()],
        proofs: vec![good, bad],
    };
    let states = vec![predicted_vec.clone(), predicted_vec];
    let verifier = StateVerifier::new("v1");
    let outcomes = verifier.verify_batch(&result, &states);
    assert_eq!(outcomes.len(), 2);
    assert!(matches!(outcomes[0], ProofCheck::Reconstruct(_)));
    match &outcomes[1] {
        ProofCheck::Rejected(r) => assert_eq!(r.status, VerificationStatus::ModelMismatch),
        ProofCheck::Reconstruct(_) => panic!("second bundle should be rejected"),
    }
}
