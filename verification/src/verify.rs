//! Multi-stage state verifier: model-version check, Merkle inclusion check,
//! predicted-state hash check, delta decode and dimension check, in that
//! order, terminating at the first failure. The final stage — hashing the
//! reconstructed state against the claimed actual root — is a separate step,
//! since the elementwise floating-point sum is the hosting process's side of
//! the contract.

use vstd::prelude::*;
use crate::codec::{CompressionMethod, DeltaEncoder, decode_spec};
use crate::digest::Hash32;
use crate::types::{
    CompressionResult,
    StateVector,
    VerificationProof,
    fold_proof_path,
    hashes_view,
    state_hash_of,
};

verus! {

/// Verification status.
#[derive(Clone, Debug, PartialEq, Eq, Structural)]
pub enum VerificationStatus {
    Valid,
    InvalidMerkle,
    InvalidPrediction,
    InvalidDelta,
    ModelMismatch,
}

/// Outcome of one verification. The transaction digest is present exactly
/// when the status is valid; the message is human-facing only.
#[derive(Clone, Debug)]
pub struct VerificationResult {
    pub status: VerificationStatus,
    pub tx_hash: Option<Hash32>,
    pub message: String,
}

impl VerificationResult {
    /// The transaction digest is carried exactly on success.
    pub open spec fn wf(&self) -> bool {
        self.tx_hash is Some <==> self.status is Valid
    }

    /// A successful outcome carrying the verified transaction's digest.
    pub fn valid(tx_hash: Hash32) -> (r: VerificationResult)
        ensures
            r.status is Valid,
            r.tx_hash == Some(tx_hash),
            r.message@ == "Proof verified successfully"@,
            r.wf(),
    {
        VerificationResult {
            status: VerificationStatus::Valid,
            tx_hash: Some(tx_hash),
            message: "Proof verified successfully".to_owned(),
        }
    }

    /// A failed outcome with the stage's status and a human-facing message.
    pub fn invalid(status: VerificationStatus, message: &str) -> (r: VerificationResult)
        requires
            !(status is Valid),
        ensures
            r.status == status,
            r.tx_hash is None,
            r.message@ == message@,
            r.wf(),
    {
        VerificationResult { status, tx_hash: None, message: message.to_owned() }
    }
}

/// Whether a bundle's Merkle proof reconstructs the expected root.
pub open spec fn merkle_inclusion_ok(bundle: VerificationProof, root: Seq<u8>) -> bool {
    fold_proof_path(bundle.merkle_proof.leaf_hash@, hashes_view(bundle.merkle_proof.path@),
        bundle.merkle_proof.indices@) == root
}

/// The decoded delta the verifier's whole-buffer codec yields for a bundle.
pub open spec fn verifier_decoded(bundle: VerificationProof) -> Option<Seq<u32>> {
    decode_spec(CompressionMethod::Lz4, bundle.delta.delta_bytes@)
}

/// The status the ordered stage chain yields for one bundle: the first
/// failing stage's status, or valid when every stage up to reconstruction
/// passes. The chain is order-sensitive: a wrong model version is reported
/// as a model mismatch whatever the later stages would have said.
pub open spec fn stages_status(
    version: Seq<char>,
    bundle: VerificationProof,
    predicted: Seq<u32>,
    root: Seq<u8>,
) -> VerificationStatus {
    if bundle.model_version@ != version {
        VerificationStatus::ModelMismatch
    } else if !merkle_inclusion_ok(bundle, root) {
        VerificationStatus::InvalidMerkle
    } else if state_hash_of(predicted) != bundle.predicted_state@ {
        VerificationStatus::InvalidPrediction
    } else if verifier_decoded(bundle) is None {
        VerificationStatus::InvalidDelta
    } else if verifier_decoded(bundle)->0.len() != predicted.len() {
        VerificationStatus::InvalidDelta
    } else {
        VerificationStatus::Valid
    }
}

/// What the stage chain hands back for one bundle: a rejection carrying the
/// failing stage's result, or the decoded delta for the caller to apply to
/// the predicted state.
#[derive(Debug)]
pub enum ProofCheck {
    Rejected(VerificationResult),
    Reconstruct(Vec<u32>),
}

/// State verifier: a configured model-version string and the whole-buffer
/// delta codec.
pub struct StateVerifier {
    pub model_version: String,
    pub encoder: DeltaEncoder,
}

impl StateVerifier {
    /// The verifier's codec is the whole-buffer method.
    pub open spec fn wf(&self) -> bool {
        self.encoder.spec_method() is Lz4
    }

    pub fn new(model_version: &str) -> (r: StateVerifier)
        ensures
            r.model_version@ == model_version@,
            r.wf(),
    {
        StateVerifier {
            model_version: model_version.to_owned(),
            encoder: DeltaEncoder::new(CompressionMethod::Lz4),
        }
    }

    /// Runs the stage chain on one bundle against an expected root: model
    /// version, Merkle inclusion, predicted-state hash, then delta decode
    /// and dimension. The first failing stage rejects with its status; a
    /// bundle that passes hands back the decoded delta for reconstruction.
    pub fn verify_proof(
        &self,
        bundle: &VerificationProof,
        predicted_state: &StateVector,
        expected_root: &Hash32,
    ) -> (r: ProofCheck)
        requires
            self.wf(),
            predicted_state.wf(),
        ensures
            r is Reconstruct <==> stages_status(self.model_version@, *bundle,
                predicted_state.data@, expected_root@) is Valid,
            r is Reconstruct ==> Some(r->Reconstruct_0@) == verifier_decoded(*bundle),
            r is Rejected ==> r->Rejected_0.status == stages_status(self.model_version@,
                *bundle, predicted_state.data@, expected_root@) && r->Rejected_0.wf(),
    {
        if !(bundle.model_version == self.model_version) {
            return ProofCheck::Rejected(VerificationResult::invalid(
                VerificationStatus::ModelMismatch,
                "Model version mismatch",
            ));
        }
        if !bundle.merkle_proof.verify(expected_root) {
            return ProofCheck::Rejected(VerificationResult::invalid(
                VerificationStatus::InvalidMerkle,
                "Merkle proof verification failed",
            ));
        }
        let predicted_hash = predicted_state.compute_hash();
        if !(predicted_hash == bundle.predicted_state) {
            return ProofCheck::Rejected(VerificationResult::invalid(
                VerificationStatus::InvalidPrediction,
                "Predicted state hash mismatch",
            ));
        }
        let decoded = match self.encoder.decode(&bundle.delta.delta_bytes) {
            Ok(d) => d,
            Err(_) => {
                return ProofCheck::Rejected(VerificationResult::invalid(
                    VerificationStatus::InvalidDelta,
                    "Failed to decode delta",
                ));
            },
        };
        if decoded.len() != predicted_state.data.len() {
            return ProofCheck::Rejected(VerificationResult::invalid(
                VerificationStatus::InvalidDelta,
                "Delta dimension mismatch",
            ));
        }
        ProofCheck::Reconstruct(decoded)
    }

    /// Final stage: the digest of the reconstructed state (the elementwise
    /// sum the caller computed from the predicted state and the decoded
    /// delta) must equal the bundle's claimed actual root.
    pub fn verify_reconstruction(
        &self,
        bundle: &VerificationProof,
        reconstructed: &StateVector,
    ) -> (r: VerificationResult)
        ensures
            r.status is Valid <==> state_hash_of(reconstructed.data@)
                == bundle.delta.actual_root@,
            r.status is Valid ==> r.tx_hash == Some(bundle.tx_hash),
            !(r.status is Valid) ==> r.status is InvalidDelta,
            r.wf(),
    {
        let h = reconstructed.compute_hash();
        if h == bundle.delta.actual_root {
            VerificationResult::valid(bundle.tx_hash)
        } else {
            VerificationResult::invalid(
                VerificationStatus::InvalidDelta,
                "Reconstructed state hash mismatch",
            )
        }
    }

    /// Applies the stage chain to each (proof, predicted state) pair in
    /// order against the batch's root: one outcome per pair, every pair
    /// evaluated independently, no short-circuiting.
    pub fn verify_batch(
        &self,
        result: &CompressionResult,
        predicted_states: &Vec<StateVector>,
    ) -> (r: Vec<ProofCheck>)
        requires
            self.wf(),
            forall|i: int| 0 <= i < predicted_states@.len() ==> (#[trigger] predicted_states@[
                i]).wf(),
        ensures
            r@.len() == if result.proofs@.len() <= predicted_states@.len() {
                result.proofs@.len()
            } else {
                predicted_states@.len()
            },
            forall|i: int| #![trigger r@[i]]
                0 <= i < r@.len() ==> {
                    let st = stages_status(self.model_version@, result.proofs@[i],
                        predicted_states@[i].data@, result.delta_tree_root@);
                    &&& (r@[i] is Reconstruct <==> st is Valid)
                    &&& (r@[i] is Reconstruct ==> Some(r@[i]->Reconstruct_0@)
                        == verifier_decoded(result.proofs@[i]))
                    &&& (r@[i] is Rejected ==> r@[i]->Rejected_0.status == st
                        && r@[i]->Rejected_0.wf())
                },
    {
        let n = if result.proofs.len() <= predicted_states.len() {
            result.proofs.len()
        } else {
            predicted_states.len()
        };
        let mut out: Vec<ProofCheck> = Vec::new();
        let mut i: usize = 0;
        while i < n
            invariant
                i <= n,
                self.wf(),
                n == if result.proofs@.len() <= predicted_states@.len() {
                    result.proofs@.len()
                } else {
                    predicted_states@.len()
                },
                forall|j: int| 0 <= j < predicted_states@.len() ==> (
                #[trigger] predicted_states@[j]).wf(),
                out@.len() == i,
                forall|j: int| #![trigger out@[j]]
                    0 <= j < i ==> {
                        let st = stages_status(self.model_version@, result.proofs@[j],
                            predicted_states@[j].data@, result.delta_tree_root@);
                        &&& (out@[j] is Reconstruct <==> st is Valid)
                        &&& (out@[j] is Reconstruct ==> Some(out@[j]->Reconstruct_0@)
                            == verifier_decoded(result.proofs@[j]))
                        &&& (out@[j] is Rejected ==> out@[j]->Rejected_0.status == st
                            && out@[j]->Rejected_0.wf())
                    },
            decreases n - i,
        {
            let check = self.verify_proof(&result.proofs[i], &predicted_states[i],
                &result.delta_tree_root);
            out.push(check);
            i += 1;
        }
        out
    }
}

} // verus!
