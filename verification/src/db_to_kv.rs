use vstd::prelude::*;

use vstd::slice::slice_subrange;

use crate::endian::big::{decode_u64, spec_u64_from_be_bytes};
use crate::error::CodecError;

verus! {

/// Table and row identifiers extracted from an encoded row key.
#[derive(Debug, Clone)]
pub struct Record {
    pub table_id: i64,
    pub row_id: i64,
}

/// ASCII 't', the marker byte that opens a table key.
pub const TABLE_PREFIX: u8 = 116;

/// ASCII '_', the separator between the table and row segments.
pub const SEGMENT_SEPARATOR: u8 = 95;

/// ASCII 'r', the marker byte that opens the row segment.
pub const ROW_PREFIX: u8 = 114;

/// Mask of the sign bit of a 64-bit integer. Row keys store identifiers
/// with this bit flipped, which maps the engine's signed ordering onto the
/// unsigned big-endian byte ordering.
pub const SIGN_MASK: u64 = 0x8000000000000000;

/// The signed identifier whose sign-flipped unsigned form is `n`: flipping
/// the top bit shifts the unsigned range down by 2^63 while keeping its
/// order.
pub open spec fn spec_unflip_sign(n: u64) -> int {
    n - 0x8000000000000000
}

/// Structural parse of a nineteen-byte row key: the table-prefix marker,
/// the sign-flipped table identifier, the row-segment separator and row
/// marker, then the sign-flipped row identifier.
pub open spec fn spec_parse_record(code: Seq<u8>) -> Result<Record, CodecError> {
    if code.len() == 19 && code[0] == TABLE_PREFIX && code[9] == SEGMENT_SEPARATOR && code[10] == ROW_PREFIX {
        Ok(
            Record {
                table_id: spec_unflip_sign(spec_u64_from_be_bytes(code.subrange(1, 9))) as i64,
                row_id: spec_unflip_sign(spec_u64_from_be_bytes(code.subrange(11, 19))) as i64,
            },
        )
    } else {
        Err(CodecError::InvalidRecordFormat)
    }
}

/// Undoes the sign-bit flip applied to identifiers in row keys: the result
/// is `n - 2^63`, computed without overflow.
fn unflip_sign(n: u64) -> (r: i64)
    ensures
        r as int == spec_unflip_sign(n),
{
    if n >= SIGN_MASK {
        (n - SIGN_MASK) as i64
    } else {
        -((SIGN_MASK - 1 - n) as i64) - 1
    }
}

/// Parses a row key into its table and row identifiers; reports
/// `InvalidRecordFormat` unless the input is exactly nineteen bytes with
/// the three structural marker bytes in place.
pub fn parse_record(code: &[u8]) -> (r: Result<Record, CodecError>)
    ensures
        r == spec_parse_record(code@),
{
    if code.len() != 19 || code[0] != TABLE_PREFIX || code[9] != SEGMENT_SEPARATOR || code[10] != ROW_PREFIX {
        return Err(CodecError::InvalidRecordFormat);
    }
    let table_bytes = slice_subrange(code, 1, 9);
    let table_u = match decode_u64(table_bytes) {
        Ok(x) => x,
        Err(_) => unreached(),
    };
    let row_bytes = slice_subrange(code, 11, 19);
    let row_u = match decode_u64(row_bytes) {
        Ok(x) => x,
        Err(_) => unreached(),
    };
    Ok(Record { table_id: unflip_sign(table_u), row_id: unflip_sign(row_u) })
}

} // verus!
