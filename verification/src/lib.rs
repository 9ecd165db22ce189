//! Codecs for the binary key/value encoding scheme of a distributed SQL
//! storage engine: the order-preserving memcomparable transform for keys,
//! a variable-length integer codec, fixed-width big- and little-endian
//! integer codecs, a structural row-key parser, and the extensible MVCC
//! write-record codec.
//!
//! Every codec is a pure, stateless transform between byte sequences and
//! structured values; malformed input is reported as a typed error, never
//! as a panic.

pub mod chunk;
pub mod db_to_kv;
pub mod endian;
pub mod error;
pub mod input;
pub mod mvcc;
pub mod varint;
