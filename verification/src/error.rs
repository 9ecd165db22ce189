use vstd::prelude::*;

verus! {

/// Failure conditions shared by the codecs.
///
/// Every parsing entry point reports malformed input through one of these
/// variants; none of them aborts the process.
#[derive(Debug, Clone, Copy, PartialEq, Eq, Structural)]
pub enum CodecError {
    /// A memcomparable encoding whose length is not a multiple of nine
    /// bytes, or whose marker byte lies below the valid range.
    MalformedEncoding,
    /// A variable-length integer that is unterminated within the available
    /// bytes, or that spans more than the ten bytes a 64-bit value needs.
    MalformedVarint,
    /// Fewer bytes available than a fixed-width field requires.
    TruncatedInput,
    /// A row key whose structural marker bytes are absent.
    InvalidRecordFormat,
    /// A write-type tag byte outside the closed set of known tags.
    UnknownWriteType,
    /// A short value whose declared length exceeds the remaining bytes.
    TruncatedShortValue,
}

} // verus!
