use tidb_key_codec::chunk::{could_be_encoded_bytes, decode_bytes, encode_bytes};
use tidb_key_codec::error::CodecError;

#[test]
fn chunk_test_encode_bytes() {
    let cases: Vec<(Vec<u8>, Vec<u8>)> = vec![
        (vec![], vec![0, 0, 0, 0, 0, 0, 0, 0, 247]),
        (vec![1, 2, 3], vec![1, 2, 3, 0, 0, 0, 0, 0, 250]),
        (vec![1, 2, 3, 0], vec![1, 2, 3, 0, 0, 0, 0, 0, 251]),
        (
            vec![1, 2, 3, 4, 5, 6, 7, 8],
            vec![1, 2, 3, 4, 5, 6, 7, 8, 255, 0, 0, 0, 0, 0, 0, 0, 0, 247],
        ),
        (
            vec![1, 2, 3, 4, 5, 6, 7, 8, 9],
            vec![1, 2, 3, 4, 5, 6, 7, 8, 255, 9, 0, 0, 0, 0, 0, 0, 0, 248],
        ),
    ];
    for (input, expected) in cases.into_iter() {
        let output = encode_bytes(&input);
        assert_eq!(output, expected);
    }
}

#[test]
fn chunk_test_decode_bytes() {
    let cases: Vec<(Vec<u8>, Vec<u8>)> = vec![
        (vec![], vec![0, 0, 0, 0, 0, 0, 0, 0, 247]),
        (vec![1, 2, 3], vec![1, 2, 3, 0, 0, 0, 0, 0, 250]),
        (vec![1, 2, 3, 0], vec![1, 2, 3, 0, 0, 0, 0, 0, 251]),
        (
            vec![1, 2, 3, 4, 5, 6, 7, 8],
            vec![1, 2, 3, 4, 5, 6, 7, 8, 255, 0, 0, 0, 0, 0, 0, 0, 0, 247],
        ),
        (
            vec![1, 2, 3, 4, 5, 6, 7, 8, 9],
            vec![1, 2, 3, 4, 5, 6, 7, 8, 255, 9, 0, 0, 0, 0, 0, 0, 0, 248],
        ),
    ];
    for (expected, input) in cases.into_iter() {
        let output = decode_bytes(&input).unwrap();
        assert_eq!(output, expected);
    }
}

#[test]
fn lib_test_encode_bytes() {
    let cases: Vec<(Vec<u8>, Vec<u8>)> = vec![
        (vec![], vec![0, 0, 0, 0, 0, 0, 0, 0, 247]),
        (vec![1, 2, 3], vec![1, 2, 3, 0, 0, 0, 0, 0, 250]),
        (vec![1, 2, 3, 0], vec![1, 2, 3, 0, 0, 0, 0, 0, 251]),
        (
            vec![1, 2, 3, 4, 5, 6, 7, 8],
            vec![1, 2, 3, 4, 5, 6, 7, 8, 255, 0, 0, 0, 0, 0, 0, 0, 0, 247],
        ),
        (
            vec![1, 2, 3, 4, 5, 6, 7, 8, 9],
            vec![1, 2, 3, 4, 5, 6, 7, 8, 255, 9, 0, 0, 0, 0, 0, 0, 0, 248],
        ),
    ];
    for (input, expected) in cases.into_iter() {
        let output = encode_bytes(&input);
        assert_eq!(output, expected);
    }
}

#[test]
fn lib_test_decode_bytes() {
    let cases: Vec<(Vec<u8>, Vec<u8>)> = vec![
        (vec![], vec![0, 0, 0, 0, 0, 0, 0, 0, 247]),
        (vec![1, 2, 3], vec![1, 2, 3, 0, 0, 0, 0, 0, 250]),
        (vec![1, 2, 3, 0], vec![1, 2, 3, 0, 0, 0, 0, 0, 251]),
        (
            vec![1, 2, 3, 4, 5, 6, 7, 8],
            vec![1, 2, 3, 4, 5, 6, 7, 8, 255, 0, 0, 0, 0, 0, 0, 0, 0, 247],
        ),
        (
            vec![1, 2, 3, 4, 5, 6, 7, 8, 9],
            vec![1, 2, 3, 4, 5, 6, 7, 8, 255, 9, 0, 0, 0, 0, 0, 0, 0, 248],
        ),
    ];
    for (expected, input) in cases.into_iter() {
        let output = decode_bytes(&input).unwrap();
        assert_eq!(output, expected);
    }
}

#[test]
fn round_trip_various_lengths() {
    let cases: Vec<Vec<u8>> = vec![
        vec![],
        vec![0],
        vec![255; 7],
        vec![1, 2, 3, 4, 5, 6, 7, 8],
        vec![9; 9],
        (0..16).collect(),
        (0..23).collect(),
    ];
    for input in cases.into_iter() {
        let encoded = encode_bytes(&input);
        assert_eq!(encoded.len() % 9, 0);
        assert!(could_be_encoded_bytes(&encoded));
        assert_eq!(decode_bytes(&encoded).unwrap(), input);
    }
}

#[test]
fn proper_prefix_encodes_strictly_below() {
    let cases: Vec<(Vec<u8>, Vec<u8>)> = vec![
        (vec![], vec![0]),
        (vec![1, 2, 3], vec![1, 2, 3, 0]),
        (vec![1, 2, 3], vec![1, 2, 3, 0, 0]),
        (vec![1, 2, 3, 4, 5, 6, 7, 8], vec![1, 2, 3, 4, 5, 6, 7, 8, 0]),
        (vec![0; 8], vec![0; 16]),
    ];
    for (a, b) in cases.into_iter() {
        // Vec comparison is byte-wise lexicographic.
        assert!(encode_bytes(&a) < encode_bytes(&b));
    }
}

#[test]
fn malformed_encodings_are_rejected() {
    // Not a multiple of nine bytes.
    assert_eq!(decode_bytes(&[0; 8]), Err(CodecError::MalformedEncoding));
    assert!(!could_be_encoded_bytes(&[0; 8]));
    // Marker byte below the valid range.
    let bad = vec![0, 0, 0, 0, 0, 0, 0, 0, 246];
    assert_eq!(decode_bytes(&bad), Err(CodecError::MalformedEncoding));
    assert!(!could_be_encoded_bytes(&bad));
    // A valid encoding with the lowest and highest markers.
    let good = vec![1, 2, 3, 4, 5, 6, 7, 8, 255, 0, 0, 0, 0, 0, 0, 0, 0, 247];
    assert!(could_be_encoded_bytes(&good));
}
