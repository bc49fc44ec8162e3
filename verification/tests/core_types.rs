use cantor::{CantorError, Hash32, StateVector};
use sha2::{Digest, Sha256};

#[test]
fn test_hash32_from_slice() {
    let bytes = [1u8; 32];
    let hash = Hash32::from_slice(&bytes).unwrap();
    assert_eq!(hash.0, bytes);
}

#[test]
fn from_slice_rejects_wrong_lengths() {
    assert!(matches!(
        Hash32::from_slice(&[0u8; 31]),
        Err(CantorError::InvalidHashLength(31))
    ));
    assert!(matches!(
        Hash32::from_slice(&[0u8; 33]),
        Err(CantorError::InvalidHashLength(33))
    ));
    assert!(matches!(
        Hash32::from_slice(&[]),
        Err(CantorError::InvalidHashLength(0))
    ));
}

#[test]
fn to_hex_renders_lowercase_pairs() {
    assert_eq!(Hash32::zero().to_hex(), "0".repeat(64));
    let h = Hash32::from_slice(&[0xabu8; 32]).unwrap();
    assert_eq!(h.to_hex(), "ab".repeat(32));
    let mut bytes = [0u8; 32];
    bytes[0] = 0x01;
    bytes[31] = 0xfe;
    let hex = Hash32::from_slice(&bytes).unwrap().to_hex();
    assert!(hex.starts_with("01"));
    assert!(hex.ends_with("fe"));
}

#[test]
fn state_vector_hash_is_sha256_of_le_bytes() {
    let sv = StateVector::new(vec![1.0f32.to_bits(), 2.0f32.to_bits(), 3.0f32.to_bits()]);
    assert_eq!(sv.dimension, 3);
    let mut bytes: Vec<u8> = Vec::new();
    for f in [1.0f32, 2.0f32, 3.0f32] {
        bytes.extend_from_slice(&f.to_le_bytes());
    }
    let expected: [u8; 32] = Sha256::digest(&bytes).into();
    assert_eq!(*sv.compute_hash().as_bytes(), expected);
}

#[test]
fn state_vector_zeros_hashes_like_zero_floats() {
    let sv = StateVector::zeros(4);
    assert_eq!(sv.dimension, 4);
    assert_eq!(sv.data, vec![0u32; 4]);
    let expected: [u8; 32] = Sha256::digest(&[0u8; 16]).into();
    assert_eq!(*sv.compute_hash().as_bytes(), expected);
}

#[test]
fn empty_state_vector_hash_is_digest_of_nothing() {
    let sv = StateVector::new(Vec::new());
    // SHA-256 of the empty byte string, a fixed known value.
    assert_eq!(
        sv.compute_hash().to_hex(),
        "e3b0c44298fc1c149afbf4c8996fb92427ae41e4649b934ca495991b7852b855"
    );
}

#[test]
fn error_values_carry_their_payloads() {
    let e = CantorError::InvalidHashLength(31);
    assert!(matches!(e, CantorError::InvalidHashLength(31)));
    let e = CantorError::ModelVersionMismatch {
        expected: "v1".to_string(),
        actual: "v2".to_string(),
    };
    match e {
        CantorError::ModelVersionMismatch { expected, actual } => {
            assert_eq!(expected, "v1");
            assert_eq!(actual, "v2");
        }
        _ => panic!("wrong variant"),
    }
}
