use vstd::prelude::*;

use crate::error::CodecError;

verus! {

/// The eight bytes of `x` in big-endian order, most significant byte first.
pub open spec fn spec_u64_to_be_bytes(x: u64) -> Seq<u8> {
    seq![
        ((x >> 56) & 0xff) as u8,
        ((x >> 48) & 0xff) as u8,
        ((x >> 40) & 0xff) as u8,
        ((x >> 32) & 0xff) as u8,
        ((x >> 24) & 0xff) as u8,
        ((x >> 16) & 0xff) as u8,
        ((x >> 8) & 0xff) as u8,
        (x & 0xff) as u8,
    ]
}

/// The unsigned 64-bit value whose big-endian bytes are the first eight
/// elements of `s`.
pub open spec fn spec_u64_from_be_bytes(s: Seq<u8>) -> u64
    recommends
        s.len() >= 8,
{
    ((s[0] as u64) << 56) | ((s[1] as u64) << 48) | ((s[2] as u64) << 40) | ((s[3] as u64) << 32)
        | ((s[4] as u64) << 24) | ((s[5] as u64) << 16) | ((s[6] as u64) << 8) | (s[7] as u64)
}

/// Encoding a value and decoding the result gives the value back.
pub proof fn lemma_u64_be_bytes_round_trip(x: u64)
    ensures
        spec_u64_to_be_bytes(x).len() == 8,
        spec_u64_from_be_bytes(spec_u64_to_be_bytes(x)) == x,
{
    let s = spec_u64_to_be_bytes(x);
    assert({
        &&& (x >> 56) & 0xff < 256
        &&& (x >> 48) & 0xff < 256
        &&& (x >> 40) & 0xff < 256
        &&& (x >> 32) & 0xff < 256
        &&& (x >> 24) & 0xff < 256
        &&& (x >> 16) & 0xff < 256
        &&& (x >> 8) & 0xff < 256
        &&& x & 0xff < 256
    }) by (bit_vector);
    assert(x == (((x >> 56) & 0xff) << 56) | (((x >> 48) & 0xff) << 48) | (((x >> 40) & 0xff)
        << 40) | (((x >> 32) & 0xff) << 32) | (((x >> 24) & 0xff) << 24) | (((x >> 16) & 0xff)
        << 16) | (((x >> 8) & 0xff) << 8) | (x & 0xff)) by (bit_vector);
}

/// Reads the first eight bytes of `code` as a big-endian unsigned 64-bit
/// integer; reports `TruncatedInput` when fewer than eight are available.
pub fn decode_u64(code: &[u8]) -> (r: Result<u64, CodecError>)
    ensures
        match r {
            Ok(x) => code@.len() >= 8 && x == spec_u64_from_be_bytes(code@),
            Err(e) => code@.len() < 8 && e == CodecError::TruncatedInput,
        },
{
    if code.len() < 8 {
        return Err(CodecError::TruncatedInput);
    }
    let x: u64 = ((code[0] as u64) << 56) | ((code[1] as u64) << 48) | ((code[2] as u64) << 40)
        | ((code[3] as u64) << 32) | ((code[4] as u64) << 24) | ((code[5] as u64) << 16) | ((
    code[6] as u64) << 8) | (code[7] as u64);
    Ok(x)
}

/// Appends the eight big-endian bytes of `n` to `buf`.
pub fn encode_u64(buf: &mut Vec<u8>, n: u64)
    ensures
        final(buf)@ == old(buf)@ + spec_u64_to_be_bytes(n),
{
    buf.push(((n >> 56) & 0xff) as u8);
    buf.push(((n >> 48) & 0xff) as u8);
    buf.push(((n >> 40) & 0xff) as u8);
    buf.push(((n >> 32) & 0xff) as u8);
    buf.push(((n >> 24) & 0xff) as u8);
    buf.push(((n >> 16) & 0xff) as u8);
    buf.push(((n >> 8) & 0xff) as u8);
    buf.push((n & 0xff) as u8);
    proof {
        assert(buf@ =~= old(buf)@ + spec_u64_to_be_bytes(n));
    }
}

} // verus!
