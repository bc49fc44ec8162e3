use cantor::{CantorError, CompressionMethod, DeltaEncoder};

fn bits(values: &[f32]) -> Vec<u32> {
    values.iter().map(|v| v.to_bits()).collect()
}

fn floats(words: &[u32]) -> Vec<f32> {
    words.iter().map(|w| f32::from_bits(*w)).collect()
}

#[test]
fn test_zigzag() {
    assert_eq!(DeltaEncoder::zigzag_encode(0), 0);
    assert_eq!(DeltaEncoder::zigzag_encode(-1), 1);
    assert_eq!(DeltaEncoder::zigzag_encode(1), 2);
    assert_eq!(DeltaEncoder::zigzag_decode(0), 0);
    assert_eq!(DeltaEncoder::zigzag_decode(1), -1);
    assert_eq!(DeltaEncoder::zigzag_decode(2), 1);
}

#[test]
fn zigzag_roundtrip_extremes() {
    for n in [0, 1, -1, 1000, -1000, i32::MAX, i32::MIN] {
        assert_eq!(
            DeltaEncoder::zigzag_decode(DeltaEncoder::zigzag_encode(n)),
            n
        );
    }
}

#[test]
fn varint_wire_format() {
    let mut buf = Vec::new();
    DeltaEncoder::write_varint(&mut buf, 0);
    DeltaEncoder::write_varint(&mut buf, 127);
    DeltaEncoder::write_varint(&mut buf, 128);
    DeltaEncoder::write_varint(&mut buf, 300);
    assert_eq!(buf, vec![0x00, 0x7f, 0x80, 0x01, 0xac, 0x02]);
    assert_eq!(DeltaEncoder::read_varint(&buf[4..]), Some((300, 2)));
    // A stream that ends inside a varint is rejected.
    assert_eq!(DeltaEncoder::read_varint(&[0x80]), None);
    assert_eq!(DeltaEncoder::read_varint(&[]), None);
}

#[test]
fn lz4_roundtrip() {
    let encoder = DeltaEncoder::new(CompressionMethod::Lz4);
    let delta = vec![0.1f32, 0.2, 0.0, 0.0, 0.3];
    let encoded = encoder.encode(&bits(&delta)).unwrap();
    let decoded = encoder.decode(&encoded).unwrap();
    assert_eq!(floats(&decoded), delta);
}

#[test]
fn lz4_compresses_repetitive_data() {
    let encoder = DeltaEncoder::new(CompressionMethod::Lz4);
    let delta: Vec<u32> = vec![0; 1024];
    let encoded = encoder.encode(&delta).unwrap();
    // Compression actually transformed the stream: the block (even with its
    // size prefix) is far smaller than the 4096 raw bytes.
    assert!(encoded.len() < 1024);
    assert_eq!(encoder.decode(&encoded).unwrap(), delta);
}

#[test]
fn lz4_rejects_garbage() {
    let encoder = DeltaEncoder::new(CompressionMethod::Lz4);
    let garbage = vec![0xffu8, 0x01, 0x02];
    assert!(matches!(
        encoder.decode(&garbage),
        Err(CantorError::DecompressionFailed(_))
    ));
}

#[test]
fn varint_roundtrip_quantized() {
    let encoder = DeltaEncoder::new(CompressionMethod::Varint);
    // Quantized milli-unit values for [0.001, -0.002, 0.0, 0.5].
    let quantized: Vec<i32> = vec![1, -2, 0, 500];
    let elems: Vec<u32> = quantized.iter().map(|q| *q as u32).collect();
    let encoded = encoder.encode(&elems).unwrap();
    let decoded = encoder.decode(&encoded).unwrap();
    assert_eq!(decoded, elems);
    for (e, d) in quantized.iter().zip(decoded.iter()) {
        let recovered = *d as i32 as f32 / 1000.0;
        assert!((recovered - *e as f32 / 1000.0).abs() < 0.0005);
    }
}

#[test]
fn varint_roundtrip_empty_and_extremes() {
    let encoder = DeltaEncoder::new(CompressionMethod::Varint);
    for elems in [vec![], vec![0u32], vec![u32::MAX, 1, 0x80000000]] {
        let encoded = encoder.encode(&elems).unwrap();
        assert_eq!(encoder.decode(&encoded).unwrap(), elems);
    }
}

#[test]
fn varint_rejects_truncated_stream() {
    let encoder = DeltaEncoder::new(CompressionMethod::Varint);
    assert!(matches!(
        encoder.decode(&vec![0x80u8]),
        Err(CantorError::InvalidDeltaEncoding)
    ));
}

#[test]
fn rle_threshold_matches_float_magnitude() {
    // The zero test compares magnitude bits against the bit pattern of 1e-6.
    assert_eq!(1.0e-6f32.to_bits(), 0x358637bd);
    let encoder = DeltaEncoder::new(CompressionMethod::RunLength);
    // Tiny values (and negative zero) collapse into a zero run.
    let tiny = bits(&[1.0e-7, -0.0, 0.0]);
    let encoded = encoder.encode(&tiny).unwrap();
    assert_eq!(encoded, vec![0, 3]);
}

#[test]
fn rle_roundtrip_zero_runs() {
    let encoder = DeltaEncoder::new(CompressionMethod::RunLength);
    let delta = vec![0.1f32, 0.2, 0.0, 0.0, 0.3];
    let encoded = encoder.encode(&bits(&delta)).unwrap();
    let decoded = encoder.decode(&encoded).unwrap();
    assert_eq!(floats(&decoded), delta);
}

#[test]
fn rle_roundtrip_all_zero_and_empty() {
    let encoder = DeltaEncoder::new(CompressionMethod::RunLength);
    for delta in [vec![], vec![0.0f32; 7], vec![0.0f32; 300]] {
        let encoded = encoder.encode(&bits(&delta)).unwrap();
        let decoded = encoder.decode(&encoded).unwrap();
        assert_eq!(floats(&decoded), delta);
    }
}

#[test]
fn rle_caps_runs_at_255() {
    let encoder = DeltaEncoder::new(CompressionMethod::RunLength);
    let delta = vec![0u32; 300];
    let encoded = encoder.encode(&delta).unwrap();
    assert_eq!(encoded, vec![0, 255, 0, 45]);
}

#[test]
fn rle_rejects_dangling_marker_and_short_tail() {
    let encoder = DeltaEncoder::new(CompressionMethod::RunLength);
    // A lone zero byte is a dangling run marker read as a short raw element.
    assert!(matches!(
        encoder.decode(&vec![0u8]),
        Err(CantorError::InvalidDeltaEncoding)
    ));
    // Three bytes cannot start a raw four-byte element.
    assert!(matches!(
        encoder.decode(&vec![1u8, 2, 3]),
        Err(CantorError::InvalidDeltaEncoding)
    ));
}

#[test]
fn default_method_is_whole_buffer() {
    assert!(matches!(CompressionMethod::default(), CompressionMethod::Lz4));
}
