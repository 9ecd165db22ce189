use tidb_key_codec::endian;
use tidb_key_codec::error::CodecError;
use tidb_key_codec::varint;

#[test]
fn varint_exact_encodings() {
    assert_eq!(varint::encode_u64(0), vec![0]);
    assert_eq!(varint::encode_u64(1), vec![1]);
    assert_eq!(varint::encode_u64(127), vec![127]);
    assert_eq!(varint::encode_u64(128), vec![128, 1]);
    assert_eq!(varint::encode_u64(300), vec![172, 2]);
    assert_eq!(varint::encode_u64(u64::MAX).len(), 10);
}

#[test]
fn varint_round_trip() {
    let cases: Vec<u64> = vec![0, 1, 127, 128, 300, 16384, 424659320104550401, u64::MAX];
    for n in cases.into_iter() {
        let encoded = varint::encode_u64(n);
        let (value, consumed) = varint::decode_u64(&encoded).unwrap();
        assert_eq!(value, n);
        assert_eq!(consumed, encoded.len());
    }
}

#[test]
fn varint_ignores_trailing_bytes() {
    let mut bytes = varint::encode_u64(300);
    let len = bytes.len();
    bytes.extend_from_slice(&[9, 9, 9]);
    assert_eq!(varint::decode_u64(&bytes), Ok((300, len)));
}

#[test]
fn varint_malformed_inputs() {
    // Empty input.
    assert_eq!(varint::decode_u64(&[]), Err(CodecError::MalformedVarint));
    // Unterminated: every byte keeps the continuation bit set.
    assert_eq!(varint::decode_u64(&[0x80]), Err(CodecError::MalformedVarint));
    assert_eq!(varint::decode_u64(&[0xff, 0xff, 0xff]), Err(CodecError::MalformedVarint));
    // Longer than the ten bytes a 64-bit value needs.
    let mut too_long = vec![0x80; 10];
    too_long.push(1);
    assert_eq!(varint::decode_u64(&too_long), Err(CodecError::MalformedVarint));
    // Exactly ten bytes is still accepted.
    let mut ten = vec![0x80; 9];
    ten.push(1);
    assert!(varint::decode_u64(&ten).is_ok());
}

#[test]
fn big_endian_round_trip() {
    let bytes: Vec<u8> = vec![1, 2, 3, 4, 5, 6, 7, 8];
    assert_eq!(endian::big::decode_u64(&bytes), Ok(0x0102030405060708));
    let mut out: Vec<u8> = Vec::new();
    endian::big::encode_u64(&mut out, 0x0102030405060708);
    assert_eq!(out, bytes);
    let mut max_out: Vec<u8> = Vec::new();
    endian::big::encode_u64(&mut max_out, u64::MAX);
    assert_eq!(max_out, vec![255; 8]);
    assert_eq!(endian::big::decode_u64(&max_out), Ok(u64::MAX));
}

#[test]
fn little_endian_round_trip() {
    let bytes: Vec<u8> = vec![8, 7, 6, 5, 4, 3, 2, 1];
    assert_eq!(endian::little::decode_u64(&bytes), Ok(0x0102030405060708));
    let mut out: Vec<u8> = Vec::new();
    endian::little::encode_u64(&mut out, 0x0102030405060708);
    assert_eq!(out, bytes);
}

#[test]
fn endian_truncated_inputs() {
    assert_eq!(endian::big::decode_u64(&[1, 2, 3]), Err(CodecError::TruncatedInput));
    assert_eq!(endian::little::decode_u64(&[]), Err(CodecError::TruncatedInput));
    // Extra bytes beyond the first eight are ignored.
    assert_eq!(endian::big::decode_u64(&[0, 0, 0, 0, 0, 0, 0, 9, 42]), Ok(9));
}
