//! Fixed-width codecs for unsigned 64-bit integers, in big-endian and
//! little-endian byte order.

pub mod big;
pub mod little;
