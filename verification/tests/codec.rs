use hugo_ai::codec::bytes_to_embedding;
use hugo_ai::codec::embedding_to_bytes;
use hugo_ai::error::PipelineError;

#[test]
fn encodes_little_endian_eight_bytes_per_word() {
    let words = vec![1u64, 0x0102030405060708u64];
    let bytes = embedding_to_bytes(&words);
    assert_eq!(bytes.len(), 16);
    assert_eq!(&bytes[..8], &[1, 0, 0, 0, 0, 0, 0, 0]);
    assert_eq!(&bytes[8..], &[8, 7, 6, 5, 4, 3, 2, 1]);
}

#[test]
fn round_trips_float_bit_patterns() {
    let values = [0.0f64, 1.0, -1.0, 0.4, 3.141592653589793, f64::MAX];
    let words: Vec<u64> = values.iter().map(|v| v.to_bits()).collect();
    let bytes = embedding_to_bytes(&words);
    let back = bytes_to_embedding(&bytes).unwrap();
    assert_eq!(back, words);
    for (w, v) in back.iter().zip(values.iter()) {
        assert_eq!(f64::from_bits(*w), *v);
    }
}

#[test]
fn empty_vector_round_trips() {
    let bytes = embedding_to_bytes(&Vec::new());
    assert!(bytes.is_empty());
    assert_eq!(bytes_to_embedding(&bytes).unwrap(), Vec::<u64>::new());
}

#[test]
fn rejects_blob_with_ragged_length() {
    let blob = vec![0u8; 12];
    match bytes_to_embedding(&blob) {
        Err(PipelineError::BadEmbeddingLength { len }) => assert_eq!(len, 12),
        other => panic!("expected a length rejection, got {:?}", other.map(|v| v.len())),
    }
}
